//! How the output of a log comes to stand in the files of its segments, and that what was logged is
//! read back from there.
use crate::coding;
use crate::transaction::Timestamp;
use crate::wal::log_record;
use crate::wal::segment;
use crate::wal::segment::{LogPointer, ReadFailure, Segment};
use crate::wal::{Wal, WalOptions};
use vstd::prelude::*;

verus! {

/// The bytes of the file of a segment; none where there is no such file.
pub open spec fn file_of(files: Map<u32, Seq<u8>>, segno: nat) -> Seq<u8> {
    if files.contains_key(segno as u32) {
        files[segno as u32]
    } else {
        Seq::empty()
    }
}

/// Files of segments after pieces of output were put at their ends, one after the other.
pub open spec fn put_at_ends(
    files: Map<u32, Seq<u8>>,
    pieces: Seq<(u32, Seq<u8>)>,
) -> Map<u32, Seq<u8>>
    decreases pieces.len(),
{
    if pieces.len() == 0 {
        files
    } else {
        let before = put_at_ends(files, pieces.drop_last());
        let (segno, bytes) = pieces.last();
        before.insert(segno, file_of(before, segno as nat) + bytes)
    }
}

/// Whether a record is read from a place of a log with the given capacity of its segments.
pub open spec fn read_at(
    files: Map<u32, Seq<u8>>,
    capacity: nat,
    pos: nat,
    record: Seq<u8>,
) -> bool {
    let at = pos % capacity;
    segment::read_result(file_of(files, pos / capacity + 1), at) == Ok::<_, ReadFailure>(
        Some((record, at + segment::record_bytes(at % 0x10000, record, true).len())),
    )
}

/// A file that no piece is for stays as it is.
proof fn lemma_put_elsewhere(files: Map<u32, Seq<u8>>, pieces: Seq<(u32, Seq<u8>)>, segno: nat)
    requires
        segno <= u32::MAX,
        forall|i: int| 0 <= i < pieces.len() ==> (#[trigger] pieces[i]).0 != segno,
    ensures
        file_of(put_at_ends(files, pieces), segno) == file_of(files, segno),
    decreases pieces.len(),
{
    if pieces.len() > 0 {
        let init = pieces.drop_last();
        assert forall|i: int| 0 <= i < init.len() implies (#[trigger] init[i]).0 != segno by {
            assert(init[i] == pieces[i]);
        }
        lemma_put_elsewhere(files, init, segno);
        assert(pieces[pieces.len() - 1].0 != segno);
    }
}

/// A file that one piece is for has it at its end.
proof fn lemma_put(files: Map<u32, Seq<u8>>, pieces: Seq<(u32, Seq<u8>)>, n: int)
    requires
        0 <= n < pieces.len(),
        forall|i: int|
            0 <= i < pieces.len() && i != n ==> (#[trigger] pieces[i]).0 != pieces[n].0,
    ensures
        file_of(put_at_ends(files, pieces), pieces[n].0 as nat) == file_of(
            files,
            pieces[n].0 as nat,
        ) + pieces[n].1,
    decreases pieces.len(),
{
    let init = pieces.drop_last();
    let segno = pieces[n].0 as nat;
    if n == pieces.len() - 1 {
        assert forall|i: int| 0 <= i < init.len() implies (#[trigger] init[i]).0 != segno by {
            assert(init[i] == pieces[i]);
        }
        lemma_put_elsewhere(files, init, segno);
    } else {
        assert(init[n] == pieces[n]);
        assert forall|i: int| 0 <= i < init.len() && i != n implies (#[trigger] init[i]).0
            != init[n].0 by {
            assert(init[i] == pieces[i]);
        }
        lemma_put(files, init, n);
        assert(pieces[pieces.len() - 1].0 != segno);
    }
}

impl Wal {
    /// The segments since the log was opened: those that were filled, and then the open one.
    pub open spec fn segment_of(self, i: int) -> Segment {
        if i < self.filled().len() {
            self.filled()[i]
        } else {
            self.tail()
        }
    }

    /// What of the output of a filled segment was taken out: all but what is left over.
    pub open spec fn out_of(self, i: int) -> Seq<u8> {
        let s = self.filled()[i];
        if i < self.filled().len() - self.left_over().len() {
            s.taken_out() + s.pending()
        } else {
            s.taken_out()
        }
    }

    /// Whether files hold what was taken out of the log since it was opened: for each segment it
    /// stands behind what was in the file then. Segments to come have no files yet.
    pub open spec fn written_to(self, files: Map<u32, Seq<u8>>) -> bool {
        let k = self.filled().len() as int;
        let m = self.left_over().len() as int;
        &&& m <= k
        &&& forall|i: int| 0 <= i < k ==> (#[trigger] self.filled()[i]).number() + (k - i)
            == self.tail().number()
        &&& forall|i: int|
            0 <= i < k ==> (#[trigger] self.filled()[i]).wf() && self.filled()[i].used()
                == self.filled()[i].handed_over()
        &&& forall|i: int|
            0 <= i < k ==> {
                let s = #[trigger] self.filled()[i];
                let data = file_of(files, s.number());
                0 <= s.found() <= data.len() && data.skip(s.found()) == self.out_of(i)
            }
        &&& forall|j: int|
            0 <= j < m ==> #[trigger] self.left_over()[j] == (
                self.filled()[k - m + j].number() as u32,
                self.filled()[k - m + j].pending(),
            )
        &&& self.tail().written_to(file_of(files, self.tail().number()))
        &&& forall|n: nat|
            self.tail().number() < n <= u32::MAX ==> (#[trigger] file_of(files, n)).len() == 0
    }

    /// Whether all output was taken out, and nothing more is to be handed over.
    pub open spec fn all_out(self) -> bool {
        &&& self.left_over().len() == 0
        &&& self.tail().pending().len() == 0
        &&& self.tail().used() == self.tail().handed_over()
    }

    /// Whether files hold all that was appended since the log was opened.
    pub open spec fn held_by(self, files: Map<u32, Seq<u8>>) -> bool {
        forall|i: int|
            0 <= i <= self.filled().len() ==> (#[trigger] self.segment_of(i)).is_held_by(
                file_of(files, self.segment_of(i).number()),
            )
    }

    /// Whether nothing was lost since another state: each segment is there, and has all that was
    /// appended to it.
    pub open spec fn keeps(self, before: Wal) -> bool {
        &&& before.filled().len() <= self.filled().len()
        &&& forall|i: int|
            0 <= i <= before.filled().len() ==> {
                let s = #[trigger] self.segment_of(i);
                let b = before.segment_of(i);
                &&& s.same_place(b)
                &&& b.image().len() <= s.image().len()
                &&& s.image().take(b.image().len() as int) == b.image()
            }
    }

    /// Whether the open segment goes on where its records end.
    pub open spec fn placed(self) -> bool {
        self.tail().opened_at() + self.tail().image().len() == self.tail().position()
    }

    /// Whether this state is the one that the `i`-th of records is appended to.
    pub open spec fn takes_record(self, before: Wal, records: Seq<Seq<u8>>, i: int) -> bool {
        exists|last: Wal| #[trigger]
            last.appended_all(before, records.take(i)) && self.turned_from(last, records[i].len())
    }

    /// Nothing was taken out of a log that was just opened.
    pub proof fn lemma_opened_files(
        self,
        last_segno: u32,
        last_size: usize,
        options: WalOptions,
        files: Map<u32, Seq<u8>>,
    )
        requires
            self.opened(last_segno, last_size, options),
            last_segno > 0 ==> file_of(files, last_segno as nat).len() == last_size,
            forall|n: nat|
                last_segno < n <= u32::MAX ==> (#[trigger] file_of(files, n)).len() == 0,
        ensures
            self.written_to(files),
    {
        let data = file_of(files, self.tail().number());
        assert(data.skip(self.tail().found()) =~= Seq::<u8>::empty());
    }

    /// The files stay right while nothing is taken out and no segment is filled.
    proof fn lemma_same_files(self, before: Wal, files: Map<u32, Seq<u8>>)
        requires
            before.written_to(files),
            self.filled() == before.filled(),
            self.left_over() == before.left_over(),
            self.tail().same_place(before.tail()),
            self.tail().hands_over(before.tail()),
        ensures
            self.written_to(files),
    {
        assert forall|i: int| 0 <= i < self.filled().len() implies self.out_of(i)
            == before.out_of(i) by {}
    }

    /// The files stay right when a new segment is opened.
    pub proof fn lemma_turned_files(self, before: Wal, len: nat, files: Map<u32, Seq<u8>>)
        requires
            before.written_to(files),
            self.turned_from(before, len),
        ensures
            self.written_to(files),
    {
        if before.has_room(len) {
            before.tail().lemma_hands_over_nothing();
            self.lemma_same_files(before, files);
        } else {
            let k = before.filled().len() as int;
            let m = before.left_over().len() as int;
            let left = self.filled().last();
            self.tail().lemma_number();
            assert(self.filled()[k] == left);
            assert forall|i: int| 0 <= i < k implies #[trigger] self.filled()[i]
                == before.filled()[i] by {
                assert(self.filled().drop_last()[i] == self.filled()[i]);
            }
            assert forall|i: int| 0 <= i < k + 1 implies {
                let s = #[trigger] self.filled()[i];
                let data = file_of(files, s.number());
                0 <= s.found() <= data.len() && data.skip(s.found()) == self.out_of(i)
            } by {
                if i < k {
                    assert(self.out_of(i) == before.out_of(i));
                } else {
                    assert(self.out_of(i) == before.tail().taken_out());
                }
            }
            assert forall|j: int| 0 <= j < m + 1 implies #[trigger] self.left_over()[j] == (
                self.filled()[k - m + j].number() as u32,
                self.filled()[k - m + j].pending(),
            ) by {
                if j < m {
                    assert(self.left_over()[j] == before.left_over()[j]);
                }
            }
            let data = file_of(files, self.tail().number());
            assert(data.skip(0) =~= Seq::<u8>::empty());
        }
    }

    /// The files stay right when a record is appended.
    pub proof fn lemma_appended_files(self, before: Wal, record: Seq<u8>, files: Map<u32, Seq<u8>>)
        requires
            before.written_to(files),
            self.appended_to(before, record),
        ensures
            self.written_to(files),
    {
        self.lemma_same_files(before, files);
    }

    /// The files stay right when records are appended one after the other.
    pub proof fn lemma_appended_all_files(
        self,
        before: Wal,
        records: Seq<Seq<u8>>,
        files: Map<u32, Seq<u8>>,
    )
        requires
            before.written_to(files),
            self.appended_all(before, records),
        ensures
            self.written_to(files),
        decreases records.len(),
    {
        if records.len() > 0 {
            let (last, turned) = choose|last: Wal, turned: Wal|
                #![trigger turned.turned_from(last, records.last().len())]
                last.appended_all(before, records.drop_last()) && turned.turned_from(
                    last,
                    records.last().len(),
                ) && self.appended_to(turned, records.last());
            last.lemma_appended_all_files(before, records.drop_last(), files);
            turned.lemma_turned_files(last, records.last().len(), files);
            self.lemma_appended_files(turned, records.last(), files);
        }
    }

    /// The files stay right when everything is handed over.
    pub proof fn lemma_flushed_files(self, before: Wal, files: Map<u32, Seq<u8>>)
        requires
            before.written_to(files),
            self.flushed_from(before),
        ensures
            self.written_to(files),
    {
        self.lemma_same_files(before, files);
    }

    /// The files stay right when a record is logged.
    pub proof fn lemma_logged_files(
        self,
        before: Wal,
        bytes: Seq<u8>,
        pos: nat,
        files: Map<u32, Seq<u8>>,
    )
        requires
            before.written_to(files),
            self.logged_from(before, bytes, pos),
        ensures
            self.written_to(files),
    {
        let (turned, mid) = choose|turned: Wal, mid: Wal| #[trigger]
            turned.turned_from(before, bytes.len()) && mid.appended_to(turned, bytes)
                && #[trigger] self.flushed_from(mid) && pos == turned.tail().log_start()
                + turned.tail().position();
        turned.lemma_turned_files(before, bytes.len(), files);
        mid.lemma_appended_files(turned, bytes, files);
        self.lemma_flushed_files(mid, files);
    }

    /// The pieces that are taken out, put at the ends of their files, make the files right again.
    pub proof fn lemma_taken_files(
        self,
        before: Wal,
        pieces: Seq<(u32, Seq<u8>)>,
        files: Map<u32, Seq<u8>>,
    )
        requires
            before.written_to(files),
            self.taken_from(before, pieces),
        ensures
            self.written_to(put_at_ends(files, pieces)),
    {
        let k = before.filled().len() as int;
        let m = before.left_over().len() as int;
        let now = put_at_ends(files, pieces);
        before.tail().lemma_number();
        assert forall|j: int| 0 <= j < pieces.len() implies (#[trigger] pieces[j]).0
            == before.tail().number() - (m - j) by {
            if j < m {
                assert(pieces[j] == before.left_over()[j]);
                assert(before.filled()[k - m + j].number() + (m - j) == before.tail().number());
            }
        }
        assert forall|i: int| 0 <= i < k implies {
            let s = #[trigger] self.filled()[i];
            let data = file_of(now, s.number());
            0 <= s.found() <= data.len() && data.skip(s.found()) == self.out_of(i)
        } by {
            let s = before.filled()[i];
            let data = file_of(files, s.number());
            if i < k - m {
                lemma_put_elsewhere(files, pieces, s.number());
            } else {
                let j = i - (k - m);
                assert(pieces[j] == before.left_over()[j]);
                lemma_put(files, pieces, j);
                assert((data + s.pending()).skip(s.found()) =~= data.skip(s.found())
                    + s.pending());
            }
        }
        lemma_put(files, pieces, m);
        let t = before.tail();
        let data = file_of(files, t.number());
        assert((data + t.pending()).skip(t.found()) =~= data.skip(t.found()) + t.pending());
        assert forall|n: nat| t.number() < n <= u32::MAX implies (#[trigger] file_of(now, n)).len()
            == 0 by {
            lemma_put_elsewhere(files, pieces, n);
            assert(file_of(files, n).len() == 0);
        }
    }

    /// Once all output was taken out, the files hold all that was appended.
    pub proof fn lemma_held(self, files: Map<u32, Seq<u8>>)
        requires
            self.wf(),
            self.written_to(files),
            self.all_out(),
        ensures
            self.held_by(files),
    {
        self.lemma_tail();
        let k = self.filled().len() as int;
        assert forall|i: int| 0 <= i <= k implies (#[trigger] self.segment_of(i)).is_held_by(
            file_of(files, self.segment_of(i).number()),
        ) by {
            let s = self.segment_of(i);
            let data = file_of(files, s.number());
            if i < k {
                assert(s == self.filled()[i]);
                let n = s.found() + s.taken_out().len();
                let first = data.take(n);
                assert(data.skip(s.found()) == s.taken_out() + s.pending());
                assert(first.skip(s.found()) =~= data.skip(s.found()).take(
                    s.taken_out().len() as int,
                ));
                assert(first.skip(s.found()) =~= s.taken_out());
                s.lemma_file_holds(first);
                assert(data =~= first + s.pending()) by {
                    assert(data.skip(n) =~= data.skip(s.found()).skip(s.taken_out().len() as int));
                    assert(data.skip(n) =~= s.pending());
                }
            } else {
                s.lemma_file_holds(data);
                assert(data + s.pending() =~= data);
            }
        }
    }

    /// Nothing is lost while nothing happens.
    pub proof fn lemma_keeps_itself(self)
        ensures
            self.keeps(self),
    {
        assert forall|i: int| 0 <= i <= self.filled().len() implies {
            let s = #[trigger] self.segment_of(i);
            s.image().take(s.image().len() as int) == s.image()
        } by {
            let s = self.segment_of(i);
            assert(s.image().take(s.image().len() as int) =~= s.image());
        }
    }

    /// Nothing was lost if nothing was up to a state in between and from there on.
    pub proof fn lemma_keeps(self, mid: Wal, before: Wal)
        requires
            self.keeps(mid),
            mid.keeps(before),
        ensures
            self.keeps(before),
    {
        assert forall|i: int| 0 <= i <= before.filled().len() implies {
            let s = #[trigger] self.segment_of(i);
            let b = before.segment_of(i);
            &&& s.same_place(b)
            &&& b.image().len() <= s.image().len()
            &&& s.image().take(b.image().len() as int) == b.image()
        } by {
            let s = self.segment_of(i);
            let m = mid.segment_of(i);
            let b = before.segment_of(i);
            let n = b.image().len() as int;
            assert(s.image().take(n) =~= s.image().take(m.image().len() as int).take(n));
        }
    }

    /// Nothing is lost while the open segment only grows.
    proof fn lemma_tail_grows(self, before: Wal)
        requires
            self.filled() == before.filled(),
            self.tail().same_place(before.tail()),
            before.tail().image().len() <= self.tail().image().len(),
            self.tail().image().take(before.tail().image().len() as int) == before.tail().image(),
        ensures
            self.keeps(before),
    {
        before.lemma_keeps_itself();
        assert forall|i: int| 0 <= i <= before.filled().len() implies {
            let s = #[trigger] self.segment_of(i);
            let b = before.segment_of(i);
            &&& s.same_place(b)
            &&& b.image().len() <= s.image().len()
            &&& s.image().take(b.image().len() as int) == b.image()
        } by {
            let b = before.segment_of(i);
            if i < before.filled().len() {
                assert(self.segment_of(i) == b);
            }
        }
    }

    /// Nothing is lost when a new segment is opened.
    pub proof fn lemma_turned_keeps(self, before: Wal, len: nat)
        requires
            self.turned_from(before, len),
        ensures
            self.keeps(before),
    {
        before.lemma_keeps_itself();
        if before.has_room(len) {
            let image = before.tail().image();
            assert(image.take(image.len() as int) =~= image);
            self.lemma_tail_grows(before);
        } else {
            let k = before.filled().len() as int;
            assert forall|i: int| 0 <= i <= k implies {
                let s = #[trigger] self.segment_of(i);
                let b = before.segment_of(i);
                &&& s.same_place(b)
                &&& b.image().len() <= s.image().len()
                &&& s.image().take(b.image().len() as int) == b.image()
            } by {
                let s = self.segment_of(i);
                let b = before.segment_of(i);
                if i < k {
                    assert(self.filled().drop_last()[i] == self.filled()[i]);
                    assert(s == b);
                } else {
                    assert(s == self.filled().last());
                    assert(s.image().take(b.image().len() as int) =~= b.image());
                }
            }
        }
    }

    /// Nothing is lost when a record is appended.
    pub proof fn lemma_appended_keeps(self, before: Wal, record: Seq<u8>)
        requires
            self.appended_to(before, record),
        ensures
            self.keeps(before),
    {
        let n = before.tail().image().len() as int;
        assert(self.tail().image().take(n) =~= before.tail().image());
        self.lemma_tail_grows(before);
    }

    /// Nothing is lost when everything is handed over.
    pub proof fn lemma_flushed_keeps(self, before: Wal)
        requires
            self.flushed_from(before),
        ensures
            self.keeps(before),
    {
        let n = before.tail().image().len() as int;
        assert(self.tail().image().take(n) =~= before.tail().image());
        self.lemma_tail_grows(before);
    }

    /// Nothing is lost when output is taken out.
    pub proof fn lemma_taken_keeps(self, before: Wal, pieces: Seq<(u32, Seq<u8>)>)
        requires
            self.taken_from(before, pieces),
        ensures
            self.keeps(before),
    {
        let n = before.tail().image().len() as int;
        assert(self.tail().image().take(n) =~= before.tail().image());
        self.lemma_tail_grows(before);
    }

    /// A record that was appended is read back, from where it was appended, once all output was
    /// taken out and put at the ends of the files, whatever was logged after it. Left out are an
    /// empty record, of which nothing is written, and one that was written with one byte left in a
    /// page.
    pub proof fn lemma_record_is_found(
        self,
        turned: Wal,
        appended: Wal,
        record: Seq<u8>,
        files: Map<u32, Seq<u8>>,
    )
        requires
            turned.placed(),
            appended.appended_to(turned, record),
            self.keeps(appended),
            self.held_by(files),
            record.len() > 0,
            turned.tail().position() % 0x10000 != 0xffff,
        ensures
            segment::read_result(
                file_of(files, turned.tail().number()),
                turned.tail().position(),
            ) == Ok::<_, ReadFailure>(Some((record, appended.tail().position()))),
    {
        let i = appended.filled().len() as int;
        let s = self.segment_of(i);
        let a = appended.segment_of(i);
        assert(a == appended.tail());
        let n = turned.tail().image().len() as int;
        let bytes = segment::record_bytes(turned.tail().position() % 0x10000, record, true);
        assert(a.image() == s.image().take(a.image().len() as int));
        assert(s.image().subrange(n, n + bytes.len()) =~= a.image().subrange(n, n + bytes.len()));
        assert(a.image().subrange(n, n + bytes.len()) =~= bytes);
        s.lemma_record_is_read(n, record, file_of(files, s.number()));
    }

    /// Nothing is lost when a record is logged.
    pub proof fn lemma_logged_keeps(self, before: Wal, bytes: Seq<u8>, pos: nat)
        requires
            self.logged_from(before, bytes, pos),
        ensures
            self.keeps(before),
    {
        let (turned, mid) = choose|turned: Wal, mid: Wal| #[trigger]
            turned.turned_from(before, bytes.len()) && mid.appended_to(turned, bytes)
                && #[trigger] self.flushed_from(mid) && pos == turned.tail().log_start()
                + turned.tail().position();
        turned.lemma_turned_keeps(before, bytes.len());
        mid.lemma_appended_keeps(turned, bytes);
        self.lemma_flushed_keeps(mid);
        self.lemma_keeps(mid, turned);
        self.lemma_keeps(turned, before);
    }

    /// A record that was logged is read back, from the place that was told, from files that hold
    /// all that was appended, whatever was logged after it. Left out is one that was written with
    /// one byte left in a page.
    pub proof fn lemma_logged_is_found(
        self,
        before: Wal,
        bytes: Seq<u8>,
        pos: nat,
        later: Wal,
        files: Map<u32, Seq<u8>>,
    )
        requires
            before.wf(),
            before.tail().usable(),
            before.segment_size() % 0x10000 == 0,
            self.logged_from(before, bytes, pos),
            later.keeps(self),
            later.held_by(files),
            bytes.len() > 0,
            pos % 0x10000 != 0xffff,
        ensures
            read_at(files, before.segment_size(), pos, bytes),
    {
        let (turned, mid) = choose|turned: Wal, mid: Wal| #[trigger]
            turned.turned_from(before, bytes.len()) && mid.appended_to(turned, bytes)
                && #[trigger] self.flushed_from(mid) && pos == turned.tail().log_start()
                + turned.tail().position();
        self.lemma_flushed_keeps(mid);
        later.lemma_keeps(self, mid);
        before.lemma_tail();
        before.tail().lemma_place();
        let at = turned.tail().position();
        crate::wal::lemma_place_in_segment(turned.tail().number(), at, before.segment_size(), pos);
        later.lemma_record_is_found(turned, mid, bytes, files);
    }

    /// Once the output is taken out after a record was logged, and put at the ends of the files,
    /// these hold all that was appended.
    pub proof fn lemma_logged_is_held(
        self,
        before: Wal,
        bytes: Seq<u8>,
        pos: nat,
        taken: Wal,
        pieces: Seq<(u32, Seq<u8>)>,
        files: Map<u32, Seq<u8>>,
    )
        requires
            before.written_to(files),
            self.logged_from(before, bytes, pos),
            taken.wf(),
            taken.taken_from(self, pieces),
        ensures
            taken.written_to(put_at_ends(files, pieces)),
            taken.held_by(put_at_ends(files, pieces)),
            taken.keeps(self),
    {
        self.lemma_logged_files(before, bytes, pos, files);
        taken.lemma_taken_files(self, pieces, files);
        taken.lemma_held(put_at_ends(files, pieces));
        taken.lemma_taken_keeps(self, pieces);
    }

    /// A checkpoint that was logged is found at the place that was told, in the file of its
    /// segment, once the files hold all that was appended. Left out is one that was written with
    /// one byte left in a page.
    pub proof fn lemma_checkpoint_is_found(
        self,
        before: Wal,
        xid: Timestamp,
        record: log_record::RecordView,
        pos: LogPointer,
        later: Wal,
        files: Map<u32, Seq<u8>>,
    )
        requires
            before.wf(),
            before.tail().usable(),
            before.segment_size() % 0x10000 == 0,
            record is Checkpoint,
            log_record::record_fits(record),
            self.logged_from(before, log_record::full_encoding(xid, record), pos as nat),
            later.keeps(self),
            later.held_by(files),
            pos % 0x10000 != 0xffff,
        ensures
            Self::checkpoint_at(
                pos,
                file_of(files, pos as nat / before.segment_size() + 1),
                before.segment_size(),
            ) == Some(record),
    {
        let bytes = log_record::full_encoding(xid, record);
        assert(bytes.len() > 0) by {
            coding::lemma_le_bytes_len(xid.0 as nat, 8);
        }
        self.lemma_logged_is_found(before, bytes, pos as nat, later, files);
        log_record::lemma_record_round_trip(xid, record, Seq::empty());
        assert(bytes + Seq::<u8>::empty() =~= bytes);
    }

    /// Where the open segment goes on where its records end, it does so after records are appended.
    proof fn lemma_placed(self, before: Wal, records: Seq<Seq<u8>>)
        requires
            before.placed(),
            self.appended_all(before, records),
        ensures
            self.placed(),
        decreases records.len(),
    {
        if records.len() > 0 {
            let (last, turned) = choose|last: Wal, turned: Wal|
                #![trigger turned.turned_from(last, records.last().len())]
                last.appended_all(before, records.drop_last()) && turned.turned_from(
                    last,
                    records.last().len(),
                ) && self.appended_to(turned, records.last());
            last.lemma_placed(before, records.drop_last());
        }
    }

    /// Each of the records that were appended one after the other was appended to some state, and
    /// nothing was lost since then.
    proof fn lemma_appended_one(self, before: Wal, records: Seq<Seq<u8>>, i: int) -> (r: (Wal, Wal))
        requires
            before.placed(),
            self.appended_all(before, records),
            0 <= i < records.len(),
        ensures
            r.0.placed(),
            r.0.takes_record(before, records, i),
            r.1.appended_to(r.0, records[i]),
            self.keeps(r.1),
        decreases records.len(),
    {
        let init = records.drop_last();
        let (last, turned) = choose|last: Wal, turned: Wal|
            #![trigger turned.turned_from(last, records.last().len())]
            last.appended_all(before, init) && turned.turned_from(last, records.last().len())
                && self.appended_to(turned, records.last());
        if i == init.len() {
            last.lemma_placed(before, init);
            assert(records.take(i) =~= init);
            assert(last.appended_all(before, records.take(i)));
            self.lemma_keeps_itself();
            (turned, self)
        } else {
            let (t, a) = last.lemma_appended_one(before, init, i);
            assert(init.take(i) =~= records.take(i));
            let l = choose|l: Wal| #[trigger]
                l.appended_all(before, init.take(i)) && t.turned_from(l, init[i].len());
            assert(l.appended_all(before, records.take(i)));
            turned.lemma_turned_keeps(last, records.last().len());
            self.lemma_appended_keeps(turned, records.last());
            self.lemma_keeps(turned, last);
            self.lemma_keeps(last, a);
            (t, a)
        }
    }

    /// Nothing is lost when records are appended one after the other.
    pub proof fn lemma_appended_all_keeps(self, before: Wal, records: Seq<Seq<u8>>)
        requires
            self.appended_all(before, records),
        ensures
            self.keeps(before),
        decreases records.len(),
    {
        if records.len() == 0 {
            self.lemma_keeps_itself();
        } else {
            let (last, turned) = choose|last: Wal, turned: Wal|
                #![trigger turned.turned_from(last, records.last().len())]
                last.appended_all(before, records.drop_last()) && turned.turned_from(
                    last,
                    records.last().len(),
                ) && self.appended_to(turned, records.last());
            last.lemma_appended_all_keeps(before, records.drop_last());
            turned.lemma_turned_keeps(last, records.last().len());
            self.lemma_appended_keeps(turned, records.last());
            self.lemma_keeps(turned, last);
            self.lemma_keeps(last, before);
        }
    }

    /// Every record of those that were appended one after the other is read back from files that
    /// hold all that was appended, whatever was logged after them. Left out are empty records, and
    /// those that were written with one byte left in a page.
    pub proof fn lemma_appended_all_is_found(
        self,
        before: Wal,
        records: Seq<Seq<u8>>,
        i: int,
        later: Wal,
        files: Map<u32, Seq<u8>>,
    )
        requires
            before.wf(),
            self.appended_all(before, records),
            later.keeps(self),
            later.held_by(files),
            0 <= i < records.len(),
            records[i].len() > 0,
        ensures
            exists|turned: Wal| #[trigger]
                turned.takes_record(before, records, i) && turned.found_in(files, records[i]),
    {
        before.lemma_tail();
        before.tail().lemma_place();
        let (turned, a) = self.lemma_appended_one(before, records, i);
        later.lemma_keeps(self, a);
        if turned.tail().position() % 0x10000 != 0xffff {
            later.lemma_record_is_found(turned, a, records[i], files);
        }
        assert(turned.takes_record(before, records, i));
    }

    /// Once the output is taken out after records were appended and handed over, and put at the
    /// ends of the files, these hold all that was appended.
    pub proof fn lemma_appended_all_is_held(
        self,
        before: Wal,
        appended: Wal,
        records: Seq<Seq<u8>>,
        taken: Wal,
        pieces: Seq<(u32, Seq<u8>)>,
        files: Map<u32, Seq<u8>>,
    )
        requires
            before.written_to(files),
            appended.appended_all(before, records),
            self.flushed_from(appended),
            taken.wf(),
            taken.taken_from(self, pieces),
        ensures
            taken.written_to(put_at_ends(files, pieces)),
            taken.held_by(put_at_ends(files, pieces)),
            taken.keeps(appended),
    {
        appended.lemma_appended_all_files(before, records, files);
        self.lemma_flushed_files(appended, files);
        taken.lemma_taken_files(self, pieces, files);
        taken.lemma_held(put_at_ends(files, pieces));
        self.lemma_flushed_keeps(appended);
        taken.lemma_taken_keeps(self, pieces);
        taken.lemma_keeps(self, appended);
    }

    /// Whether a record is read from where the open segment goes on, unless one byte is left there
    /// in a page.
    pub open spec fn found_in(self, files: Map<u32, Seq<u8>>, record: Seq<u8>) -> bool {
        let at = self.tail().position();
        at % 0x10000 != 0xffff ==> segment::read_result(file_of(files, self.tail().number()), at)
            == Ok::<_, ReadFailure>(
            Some((record, at + segment::record_bytes(at % 0x10000, record, true).len())),
        )
    }
}

} // verus!

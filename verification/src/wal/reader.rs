//! Reading the log from a position on.
use crate::error::Error;
use crate::wal::segment;
use crate::wal::segment::{LogPointer, SegmentView};
use vstd::prelude::*;

verus! {

/// What reading on gives.
pub enum ReadStep {
    /// A record and where in the log it starts.
    Record(LogPointer, Vec<u8>),
    /// The segment has no more records; the next one is read from its start.
    SegmentEnd,
}

/// A position in the log, which moves from record to record.
pub struct WalReader {
    capacity: usize,
    segno: u32,
    offset: usize,
}

impl WalReader {
    /// The segment that is read.
    pub closed spec fn number(self) -> nat {
        self.segno as nat
    }

    /// Where in the segment is read.
    pub closed spec fn at(self) -> nat {
        self.offset as nat
    }

    /// The capacity of the segments.
    pub closed spec fn size(self) -> nat {
        self.capacity as nat
    }

    /// Where in the log is read.
    pub open spec fn position(self) -> int {
        (self.number() - 1) * self.size() + self.at()
    }

    /// There is a segment to read.
    pub closed spec fn wf(self) -> bool {
        self.segno > 0 && self.capacity > 0
    }

    /// A reader that stands at a position of the log.
    pub fn open(capacity: usize, start_pos: LogPointer) -> (r: Self)
        requires
            capacity > 0,
            start_pos as nat / capacity as nat + 1 <= u32::MAX,
        ensures
            r.wf(),
            r.size() == capacity,
            r.number() == start_pos as nat / capacity as nat + 1,
            r.at() == start_pos as nat % capacity as nat,
            r.position() == start_pos,
    {
        let c: u64 = capacity as u64;
        let segno: u32 = (start_pos / c + 1) as u32;
        let offset: usize = (start_pos % c) as usize;
        proof {
            vstd::arithmetic::div_mod::lemma_fundamental_div_mod(start_pos as int, capacity as int);
            assert((start_pos as int / capacity as int) * capacity == capacity * (start_pos as int
                / capacity as int)) by (nonlinear_arith);
        }
        Self { capacity, segno, offset }
    }

    /// The number of the segment that is read.
    pub fn segment(&self) -> (r: u32)
        ensures
            r == self.number(),
    {
        self.segno
    }

    /// Reads the next record of the segment, whose bytes are given.
    pub fn next(&mut self, data: &[u8]) -> (r: Result<ReadStep, Error>)
        requires
            old(self).wf(),
            old(self).at() + 7 <= usize::MAX,
            old(self).position() <= u64::MAX,
            old(self).number() < u32::MAX,
        ensures
            final(self).wf(),
            final(self).size() == old(self).size(),
            match r {
                Ok(ReadStep::Record(lsn, record)) => {
                    &&& data@.len() <= old(self).size()
                    &&& lsn == old(self).position()
                    &&& segment::read_result(data@, old(self).at()) == Ok::<
                        _,
                        segment::ReadFailure,
                    >(Some((record@, final(self).at())))
                    &&& final(self).number() == old(self).number()
                },
                Ok(ReadStep::SegmentEnd) => {
                    &&& data@.len() <= old(self).size()
                    &&& segment::read_result(data@, old(self).at()) == Ok::<
                        Option<(Seq<u8>, nat)>,
                        segment::ReadFailure,
                    >(None)
                    &&& final(self).number() == old(self).number() + 1
                    &&& final(self).at() == 0
                },
                Err(e) => {
                    &&& *final(self) == *old(self)
                    &&& if old(self).size() <= 7 || data@.len() > old(self).size() {
                        e is InvalidArgument
                    } else {
                        segment::read_result(data@, old(self).at()) matches Err(f) && f.reported_as(
                            e,
                        )
                    }
                },
            },
    {
        let view = match SegmentView::open(data, self.capacity) {
            Ok(view) => view,
            Err(e) => {
                return Err(e);
            },
        };
        proof {
            assert((self.segno - 1) * self.capacity >= 0) by (nonlinear_arith)
                requires
                    self.segno >= 1,
                    self.capacity >= 0,
            ;
        }
        match view.read_record(self.offset) {
            Ok(Some((record, len))) => {
                let lsn: LogPointer = (self.segno as u64 - 1) * self.capacity as u64
                    + self.offset as u64;
                let size: usize = data.len();
                assert(self.offset + len <= size);
                self.offset = self.offset + len;
                Ok(ReadStep::Record(lsn, record))
            },
            Ok(None) => {
                self.segno = self.segno + 1;
                self.offset = 0;
                Ok(ReadStep::SegmentEnd)
            },
            Err(e) => Err(e),
        }
    }
}

} // verus!

//! Reading bytes at an offset.
use crate::error::Error;
use vstd::prelude::*;

verus! {

/// The number of bytes that a read of at most `want` bytes at `off` finds among `len`.
pub open spec fn available(len: nat, want: nat, off: nat) -> nat {
    if off > len {
        0
    } else if want > len - off {
        (len - off) as nat
    } else {
        want
    }
}

/// Something that can be read at any offset. What its bytes are, and whether reading fails, is left
/// open where it is not stated.
pub trait RandomAccess: Sized {
    /// The bytes.
    closed spec fn bytes(&self) -> Seq<u8> {
        arbitrary::<spec_fn(Self) -> Seq<u8>>()(*self)
    }

    /// Whether no read fails.
    closed spec fn reliable(&self) -> bool {
        arbitrary::<spec_fn(Self) -> bool>()(*self)
    }

    /// Reads bytes at an offset into `dst`, as many as there are and as `dst` has room for.
    fn read_at(&self, dst: &mut Vec<u8>, off: usize) -> (r: Result<usize, Error>)
        ensures
            self.reliable() ==> r is Ok,
            final(dst)@.len() == old(dst)@.len(),
            r matches Ok(n) ==> {
                &&& n == available(self.bytes().len(), old(dst)@.len(), off as nat)
                &&& n > 0 ==> final(dst)@ == self.bytes().subrange(off as int, off + n) + old(dst)@.skip(n as int)
                &&& n == 0 ==> final(dst)@ == old(dst)@
            },
    ;
}

impl RandomAccess for Vec<u8> {
    open spec fn bytes(&self) -> Seq<u8> {
        self@
    }

    open spec fn reliable(&self) -> bool {
        true
    }

    fn read_at(&self, dst: &mut Vec<u8>, off: usize) -> (r: Result<usize, Error>) {
        if off > self.len() {
            return Ok(0);
        }
        let remaining: usize = self.len() - off;
        let to_read: usize = if dst.len() > remaining {
            remaining
        } else {
            dst.len()
        };
        let ghost d0 = dst@;
        let mut i: usize = 0;
        while i < to_read
            invariant
                i <= to_read,
                to_read <= d0.len(),
                dst@.len() == d0.len(),
                off + to_read <= self@.len(),
                self@.len() <= usize::MAX,
                forall|j: int| 0 <= j < i ==> dst@[j] == self@[off + j],
                forall|j: int| i <= j < d0.len() ==> dst@[j] == d0[j],
            decreases to_read - i,
        {
            dst.set(i, self[off + i]);
            i = i + 1;
        }
        proof {
            if to_read == 0 {
                assert(dst@ =~= d0);
            } else {
                assert(dst@ =~= self@.subrange(off as int, off + to_read) + d0.skip(
                    to_read as int,
                ));
            }
        }
        Ok(to_read)
    }
}

} // verus!

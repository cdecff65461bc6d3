//! Where a sort spills to.

use vstd::prelude::*;

use crate::error::{Error, ErrorKind};
use crate::format::bytes::put_slice;

verus! {

/// A temporary file: bytes are appended and read back.
///
/// The sort keeps no copy of what it has spilled, so a scratch file on disk keeps a build
/// of a dataset far larger than memory inside the sort buffer. [`MemoryScratch`] keeps it
/// all in memory.
///
/// The spec functions have defaults, for implementations that nothing is proved of; one that
/// is verified gives its own.
pub trait Scratch: Sized {
    /// Everything appended so far.
    open spec fn spilled(&self) -> Seq<u8> {
        Seq::empty()
    }

    /// Whether neither writing nor reading can fail.
    open spec fn dependable(&self) -> bool {
        false
    }

    /// Another file of the same kind, with nothing in it. A file on disk need not exist
    /// before something is appended to it.
    fn fresh(&self) -> (r: Self)
        ensures
            r.spilled() == Seq::<u8>::empty(),
            r.dependable() == self.dependable(),
    ;

    /// Appends bytes.
    fn append(&mut self, bytes: &[u8]) -> (r: Result<(), Error>)
        ensures
            final(self).dependable() == old(self).dependable(),
            match r {
                Ok(_) => final(self).spilled() == old(self).spilled() + bytes@,
                Err(e) => e.kind() == ErrorKind::Io && !old(self).dependable(),
            },
    ;

    /// Fills `buf` with the bytes from `offset` on.
    fn read_back(&self, buf: &mut [u8], offset: u64) -> (r: Result<(), Error>)
        requires
            offset + old(buf)@.len() <= self.spilled().len(),
        ensures
            final(buf)@.len() == old(buf)@.len(),
            match r {
                Ok(_) => final(buf)@ == self.spilled().subrange(
                    offset as int,
                    offset + old(buf)@.len(),
                ),
                Err(e) => e.kind() == ErrorKind::Io && !self.dependable(),
            },
    ;
}

/// A scratch file in memory.
pub struct MemoryScratch {
    bytes: Vec<u8>,
}

impl MemoryScratch {
    /// Nothing spilled.
    pub fn new() -> (r: MemoryScratch)
        ensures
            r.spilled() == Seq::<u8>::empty(),
    {
        MemoryScratch { bytes: Vec::new() }
    }
}

impl Scratch for MemoryScratch {
    closed spec fn spilled(&self) -> Seq<u8> {
        self.bytes@
    }

    open spec fn dependable(&self) -> bool {
        true
    }

    fn fresh(&self) -> (r: Self) {
        MemoryScratch { bytes: Vec::new() }
    }

    fn append(&mut self, bytes: &[u8]) -> (r: Result<(), Error>) {
        put_slice(&mut self.bytes, bytes);
        Ok(())
    }

    fn read_back(&self, buf: &mut [u8], offset: u64) -> (r: Result<(), Error>) {
        proof {
            assert(offset <= self.bytes.len());
        }
        let at = offset as usize;
        let mut i: usize = 0;
        while i < buf.len()
            invariant
                i <= buf@.len(),
                buf@.len() == old(buf)@.len(),
                at == offset,
                at + buf@.len() <= self.bytes@.len(),
                self.bytes@.len() <= usize::MAX,
                forall|j: int| 0 <= j < i ==> #[trigger] buf@[j] == self.bytes@[at + j],
            decreases buf@.len() - i,
        {
            buf[i] = self.bytes[at + i];
            i += 1;
        }
        proof {
            assert(buf@ =~= self.spilled().subrange(offset as int, offset + buf@.len()));
        }
        Ok(())
    }
}

} // verus!

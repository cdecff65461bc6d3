//! Where a build writes to.

use vstd::prelude::*;

use crate::error::{Error, ErrorKind};
use crate::format::bytes::put_slice;

verus! {

/// Bytes with a run of them replaced.
pub open spec fn spliced(s: Seq<u8>, at: int, with: Seq<u8>) -> Seq<u8> {
    s.subrange(0, at) + with + s.subrange(at + with.len(), s.len() as int)
}

/// A file being written: bytes are appended, and bytes already written can be patched.
///
/// The build keeps no copy of what it has written, so a target on disk keeps a build of a
/// database far larger than memory inside the sort buffer. [`MemoryTarget`] keeps it all
/// in memory.
///
/// The spec functions have defaults, for implementations that nothing is proved of; one that
/// is verified gives its own.
pub trait BuildTarget {
    /// Everything written so far.
    open spec fn written(&self) -> Seq<u8> {
        Seq::empty()
    }

    /// Whether writing cannot fail.
    open spec fn dependable(&self) -> bool {
        false
    }

    /// Appends bytes.
    fn append(&mut self, bytes: &[u8]) -> (r: Result<(), Error>)
        ensures
            final(self).dependable() == old(self).dependable(),
            match r {
                Ok(_) => final(self).written() == old(self).written() + bytes@,
                Err(e) => e.kind() == ErrorKind::Io && !old(self).dependable(),
            },
    ;

    /// Overwrites bytes already written, without moving the append position.
    fn patch(&mut self, offset: u64, bytes: &[u8]) -> (r: Result<(), Error>)
        requires
            offset + bytes@.len() <= old(self).written().len(),
        ensures
            final(self).dependable() == old(self).dependable(),
            match r {
                Ok(_) => final(self).written() == spliced(
                    old(self).written(),
                    offset as int,
                    bytes@,
                ),
                Err(e) => e.kind() == ErrorKind::Io && !old(self).dependable(),
            },
    ;

    /// Flushes buffered writes.
    fn flush(&mut self) -> (r: Result<(), Error>)
        ensures
            final(self).dependable() == old(self).dependable(),
            final(self).written() == old(self).written(),
            r matches Err(e) ==> e.kind() == ErrorKind::Io && !old(self).dependable(),
    ;
}

/// A target in memory.
pub struct MemoryTarget {
    bytes: Vec<u8>,
}

impl MemoryTarget {
    /// An empty target.
    pub fn new() -> (r: MemoryTarget)
        ensures
            r.written() == Seq::<u8>::empty(),
    {
        MemoryTarget { bytes: Vec::new() }
    }

    /// The bytes written.
    pub fn into_vec(self) -> (r: Vec<u8>)
        ensures
            r@ == self.written(),
    {
        self.bytes
    }
}

impl BuildTarget for MemoryTarget {
    closed spec fn written(&self) -> Seq<u8> {
        self.bytes@
    }

    open spec fn dependable(&self) -> bool {
        true
    }

    fn append(&mut self, bytes: &[u8]) -> (r: Result<(), Error>) {
        put_slice(&mut self.bytes, bytes);
        Ok(())
    }

    fn patch(&mut self, offset: u64, bytes: &[u8]) -> (r: Result<(), Error>) {
        let ghost before = self.bytes@;
        proof {
            assert(offset <= self.bytes.len());
        }
        let start = offset as usize;
        proof {
            assert(spliced(before, start as int, bytes@.subrange(0, 0)) =~= before);
        }
        let mut i: usize = 0;
        while i < bytes.len()
            invariant
                i <= bytes@.len(),
                start == offset,
                start + bytes@.len() <= before.len(),
                before.len() <= usize::MAX,
                self.bytes@.len() == before.len(),
                self.bytes@ == spliced(before, start as int, bytes@.subrange(0, i as int)),
            decreases bytes@.len() - i,
        {
            self.bytes.set(start + i, bytes[i]);
            i += 1;
            proof {
                assert(self.bytes@ =~= spliced(before, start as int, bytes@.subrange(0, i as int)));
            }
        }
        proof {
            assert(bytes@.subrange(0, i as int) =~= bytes@);
        }
        Ok(())
    }

    fn flush(&mut self) -> (r: Result<(), Error>) {
        Ok(())
    }
}

} // verus!

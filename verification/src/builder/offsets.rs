//! Where the pages of a build are.

use vstd::prelude::*;

use super::scratch::Scratch;
use super::sink;
use super::target::BuildTarget;
use crate::error::{Error, ErrorKind};
use crate::format::bytes::{self, put_le8, zeroed};
use crate::format::{PageOrdinal, DIRECTORY_SLOT_LEN};

verus! {

broadcast use crate::format::group_format;

/// How much of the directory is read back at a time.
pub const READ_CHUNK: usize = 0x4_0000;

/// Collects page offsets without keeping one entry per page in memory.
///
/// Offsets are appended in the order the pages are written. Fewer than `threshold` bytes of
/// them stay in memory; beyond that they spill to a scratch file and are streamed back when
/// the directory section is written. Nothing in the write path ever indexes the directory by
/// ordinal: patching a sibling uses the previous page's file offset, which the level already
/// knows.
pub struct DirectorySpool<D: Scratch> {
    buffer: Vec<u8>,
    file: Option<D>,
    /// Makes the scratch file.
    seed: D,
    spilled_bytes: u64,
    count: u64,
    threshold: usize,
    offsets: Ghost<Seq<u64>>,
}

impl<D: Scratch> DirectorySpool<D> {
    /// The offsets recorded.
    pub closed spec fn offsets(&self) -> Seq<u64> {
        self.offsets@
    }

    /// Whether spilling cannot fail.
    pub closed spec fn dependable(&self) -> bool {
        self.seed.dependable()
    }

    /// How many bytes are in memory.
    pub closed spec fn held(&self) -> int {
        self.buffer@.len() as int
    }

    /// How many bytes are too many to keep in memory.
    pub closed spec fn spec_threshold(&self) -> int {
        self.threshold as int
    }

    spec fn spilled(&self) -> Seq<u8> {
        match self.file {
            Some(f) => f.spilled(),
            None => Seq::empty(),
        }
    }

    /// Whether what is spilled and what is in memory are the directory so far.
    spec fn whole(&self) -> bool {
        &&& self.spilled() + self.buffer@ == sink::directory_bytes(self.offsets@)
        &&& self.count == self.offsets@.len()
        &&& self.count <= 0x7FFF_FFFF
        &&& self.spilled_bytes == self.spilled().len()
        &&& self.file matches Some(f) ==> f.dependable() == self.seed.dependable()
    }

    /// Whether the spool is in a state its methods keep.
    pub closed spec fn wf(&self) -> bool {
        self.whole() && self.held() < self.spec_threshold()
    }

    /// What a spool knows of itself: no more is in memory than may be.
    pub proof fn lemma_wf(&self)
        requires
            self.wf(),
        ensures
            self.offsets().len() <= 0x7FFF_FFFF,
            self.held() < self.spec_threshold(),
    {
    }

    /// Creates a spool that keeps fewer than `threshold` bytes in memory, or one slot's worth.
    pub fn new(seed: D, threshold: usize) -> (r: DirectorySpool<D>)
        ensures
            r.wf(),
            r.offsets() == Seq::<u64>::empty(),
            r.dependable() == seed.dependable(),
            r.spec_threshold() == (if threshold < DIRECTORY_SLOT_LEN {
                DIRECTORY_SLOT_LEN
            } else {
                threshold
            }),
    {
        let r = DirectorySpool {
            buffer: Vec::new(),
            file: None,
            seed,
            spilled_bytes: 0,
            count: 0,
            threshold: if threshold < DIRECTORY_SLOT_LEN {
                DIRECTORY_SLOT_LEN
            } else {
                threshold
            },
            offsets: Ghost(Seq::empty()),
        };
        proof {
            assert(r.spilled() + r.buffer@ =~= sink::directory_bytes(r.offsets@));
        }
        r
    }

    /// Records a page's file offset and returns its ordinal.
    pub fn push(&mut self, offset: u64) -> (r: Result<PageOrdinal, Error>)
        requires
            old(self).wf(),
        ensures
            final(self).dependable() == old(self).dependable(),
            final(self).spec_threshold() == old(self).spec_threshold(),
            match r {
                Ok(ordinal) => {
                    &&& final(self).wf()
                    &&& ordinal.get() == old(self).offsets().len()
                    &&& final(self).offsets() == old(self).offsets().push(offset)
                },
                Err(e) => {
                    ||| e.kind() == ErrorKind::ValueTooLarge && old(self).offsets().len()
                        >= 0x7FFF_FFFF
                    ||| e.kind() == ErrorKind::Io && !old(self).dependable()
                },
            },
    {
        if self.count >= 0x7FFF_FFFF {
            return Err(
                Error::new(
                    ErrorKind::ValueTooLarge,
                    "the format stores the page count as a signed 32-bit integer; this build would exceed it",
                ),
            );
        }
        let ordinal = PageOrdinal::new(self.count);
        let ghost held = self.buffer@;
        put_le8(&mut self.buffer, offset);
        self.count = self.count + 1;
        self.offsets = Ghost(self.offsets@.push(offset));
        proof {
            assert(self.offsets@.drop_last() =~= old(self).offsets@);
            assert(self.spilled() + self.buffer@ =~= old(self).spilled() + held + bytes::le8(
                offset as int,
            ));
        }
        if self.buffer.len() >= self.threshold {
            match self.spill() {
                Ok(_) => {},
                Err(e) => return Err(e),
            }
        }
        Ok(ordinal)
    }

    /// Writes what is in memory to the scratch file.
    fn spill(&mut self) -> (r: Result<(), Error>)
        requires
            old(self).whole(),
            old(self).threshold > 0,
        ensures
            final(self).dependable() == old(self).dependable(),
            final(self).threshold == old(self).threshold,
            match r {
                Ok(_) => final(self).wf() && final(self).offsets() == old(self).offsets(),
                Err(e) => e.kind() == ErrorKind::Io && !old(self).dependable(),
            },
    {
        let mut file = match self.file.take() {
            Some(f) => f,
            None => self.seed.fresh(),
        };
        proof {
            sink::lemma_directory_slot(self.offsets@, 0);
        }
        match file.append(self.buffer.as_slice()) {
            Ok(_) => {},
            Err(e) => return Err(e),
        }
        self.spilled_bytes = self.spilled_bytes + self.buffer.len() as u64;
        self.buffer = Vec::new();
        self.file = Some(file);
        proof {
            assert(self.spilled() + self.buffer@ =~= old(self).spilled() + old(self).buffer@);
        }
        Ok(())
    }

    /// Number of pages recorded.
    pub fn count(&self) -> (r: u64)
        requires
            self.wf(),
        ensures
            r == self.offsets().len(),
    {
        self.count
    }

    /// Streams the directory section into `out`.
    pub fn write_into<T: BuildTarget>(&self, out: &mut T) -> (r: Result<(), Error>)
        requires
            self.wf(),
        ensures
            final(out).dependable() == old(out).dependable(),
            match r {
                Ok(_) => final(out).written() == old(out).written() + sink::directory_bytes(
                    self.offsets(),
                ),
                Err(e) => e.kind() == ErrorKind::Io && !(self.dependable()
                    && old(out).dependable()),
            },
    {
        let ghost base = out.written();
        let mut at: u64 = 0;
        if let Some(file) = &self.file {
            proof {
                assert(base + file.spilled().subrange(0, 0) =~= base);
            }
            while at < self.spilled_bytes
                invariant
                    self.wf(),
                    self.file == Some(*file),
                    at <= self.spilled_bytes,
                    base == old(out).written(),
                    out.dependable() == old(out).dependable(),
                    out.written() == base + file.spilled().subrange(0, at as int),
                decreases self.spilled_bytes - at,
            {
                let left = self.spilled_bytes - at;
                let want: usize = if left < READ_CHUNK as u64 {
                    left as usize
                } else {
                    READ_CHUNK
                };
                let mut chunk = zeroed(want);
                match file.read_back(chunk.as_mut_slice(), at) {
                    Ok(_) => {},
                    Err(e) => return Err(e),
                }
                let ghost before = out.written();
                match out.append(chunk.as_slice()) {
                    Ok(_) => {},
                    Err(e) => return Err(e),
                }
                proof {
                    let s = file.spilled();
                    assert(s.subrange(0, at as int) + s.subrange(at as int, at + want)
                        =~= s.subrange(0, at + want));
                    assert(before + chunk@ =~= base + (s.subrange(0, at as int) + chunk@));
                }
                at = at + want as u64;
            }
            proof {
                assert(file.spilled().subrange(0, at as int) =~= self.spilled());
            }
        } else {
            proof {
                assert(base + self.spilled() =~= base);
            }
        }
        let ghost before = out.written();
        match out.append(self.buffer.as_slice()) {
            Ok(_) => {},
            Err(e) => return Err(e),
        }
        proof {
            assert(before + self.buffer@ =~= base + (self.spilled() + self.buffer@));
        }
        Ok(())
    }
}

} // verus!

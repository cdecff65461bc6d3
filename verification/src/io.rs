//! Positional page I/O.
//!
//! The search path never shares a seek position: every read names its own offset, so
//! concurrent lookups do not serialise on one file handle. Short reads, interrupted reads
//! and premature end of file are handled here rather than in the B+Tree code.

use std::sync::Arc;

use vstd::prelude::*;
use vstd::string::*;

use crate::error::{Error, ErrorKind, Words};

verus! {

/// The error a byte source reports: `std::io::Error`, carried through and never looked
/// into.
#[verifier::external_type_specification]
#[verifier::external_body]
pub struct ExIoError(std::io::Error);

/// Whether a read was interrupted and can be tried again: `std::io::Error::kind` compared
/// with `Interrupted`. Nothing is claimed of the answer, which depends on what the
/// operating system reported.
#[verifier::external_body]
fn was_interrupted(e: &std::io::Error) -> (r: bool) {
    e.kind() == std::io::ErrorKind::Interrupted
}

/// A random-access byte source holding one database file.
///
/// The spec functions have defaults, for implementations that nothing is proved of; one that
/// is verified gives its own.
pub trait PageSource: Send + Sync {
    /// The bytes of the file.
    open spec fn image(&self) -> Seq<u8> {
        Seq::empty()
    }

    /// Whether reading never fails, and leaves alone what of the buffer it does not fill.
    open spec fn dependable(&self) -> bool {
        false
    }

    /// Reads into `buf` starting at `offset`, returning the number of bytes read.
    /// A return of `0` means end of file.
    fn read_at(&self, buf: &mut [u8], offset: u64) -> (r: Result<usize, std::io::Error>)
        ensures
            final(buf)@.len() == old(buf)@.len(),
            match r {
                Ok(n) => {
                    &&& read_part(self.image(), final(buf)@, offset as int, n as int)
                    &&& n == 0 ==> old(buf)@.len() == 0 || offset >= self.image().len()
                    &&& self.dependable() ==> kept_past(old(buf)@, final(buf)@, n as int)
                },
                Err(_) => !self.dependable(),
            },
    ;

    /// Total size in bytes, when cheaply available.
    fn size(&self) -> (r: Result<u64, std::io::Error>)
        ensures
            match r {
                Ok(n) => n == self.image().len(),
                Err(_) => !self.dependable(),
            },
    ;

    /// Short human-readable name used in diagnostics.
    fn describe(&self) -> String;
}

/// Whether a buffer starts with `n` bytes of an image, from `offset` on.
pub open spec fn read_part(image: Seq<u8>, buf: Seq<u8>, offset: int, n: int) -> bool {
    &&& 0 <= n <= buf.len()
    &&& n > 0 ==> offset + n <= image.len()
    &&& forall|i: int| 0 <= i < n ==> #[trigger] buf[i] == image[offset + i]
}

/// Whether a buffer is as it was from place `n` on.
pub open spec fn kept_past(before: Seq<u8>, after: Seq<u8>, n: int) -> bool {
    forall|i: int| n <= i < before.len() ==> #[trigger] after[i] == before[i]
}

/// A byte source that several owners share.
pub struct SharedSource {
    pub inner: Arc<Box<dyn PageSource>>,
}

impl Clone for SharedSource {
    fn clone(&self) -> (r: Self)
        ensures
            r == *self,
    {
        SharedSource { inner: self.inner.clone() }
    }
}

impl SharedSource {
    /// Shares an in-memory image.
    pub fn memory(source: MemorySource) -> (r: SharedSource)
        ensures
            r.inner.image() == source@,
            r.inner.dependable(),
    {
        SharedSource { inner: Arc::new(Box::new(source)) }
    }
}

/// One read of the part of `buf` from `filled` on, tried again while it is interrupted.
fn read_some<S: PageSource + ?Sized>(source: &S, buf: &mut [u8], filled: usize, at: u64) -> (r: Result<
    usize,
    std::io::Error,
>)
    requires
        filled < old(buf)@.len(),
    ensures
        final(buf)@.len() == old(buf)@.len(),
        forall|i: int| 0 <= i < filled ==> #[trigger] final(buf)@[i] == old(buf)@[i],
        match r {
            Ok(n) => {
                &&& filled + n <= old(buf)@.len()
                &&& n == 0 ==> at >= source.image().len()
                &&& n > 0 ==> at + n <= source.image().len()
                &&& forall|i: int|
                    filled <= i < filled + n ==> #[trigger] final(buf)@[i] == source.image()[at + i
                        - filled]
                &&& source.dependable() ==> kept_past(old(buf)@, final(buf)@, filled + n)
            },
            Err(_) => !source.dependable(),
        },
{
    let ghost before = buf@;
    let mut tries: u64 = u64::MAX;
    loop
        invariant
            filled < before.len(),
            buf@.len() == before.len(),
            before == old(buf)@,
            forall|i: int| 0 <= i < filled ==> #[trigger] buf@[i] == before[i],
            source.dependable() ==> buf@ == before,
        decreases tries,
    {
        let (_, rest) = buf.split_at_mut(filled);
        match source.read_at(rest, at) {
            Ok(n) => {
                return Ok(n);
            },
            Err(e) => {
                if tries == 0 || !was_interrupted(&e) {
                    return Err(e);
                }
                tries -= 1;
            },
        }
    }
}

/// Reads at most `buf.len()` bytes, stopping at end of file. Returns how many were
/// read.
pub fn read_up_to_at<S: PageSource + ?Sized>(source: &S, buf: &mut [u8], offset: u64) -> (r: Result<
    usize,
    Error,
>)
    ensures
        final(buf)@.len() == old(buf)@.len(),
        match r {
            Ok(n) => {
                &&& read_part(source.image(), final(buf)@, offset as int, n as int)
                &&& n == old(buf)@.len() || offset + n >= source.image().len()
                &&& source.dependable() ==> kept_past(old(buf)@, final(buf)@, n as int)
            },
            Err(e) => {
                ||| e.kind() == ErrorKind::Io && !source.dependable()
                ||| e.is_corrupt() && offset + old(buf)@.len() > u64::MAX
            },
        },
{
    let mut filled: usize = 0;
    while filled < buf.len()
        invariant
            filled <= buf@.len(),
            buf@.len() == old(buf)@.len(),
            read_part(source.image(), buf@, offset as int, filled as int),
            source.dependable() ==> kept_past(old(buf)@, buf@, filled as int),
        decreases buf@.len() - filled,
    {
        let at = match offset.checked_add(filled as u64) {
            Some(at) => at,
            None => return Err(Error::corrupt("read offset overflows")),
        };
        let ghost held = buf@;
        match read_some(source, buf, filled, at) {
            Ok(n) => {
                if n == 0 {
                    return Ok(filled);
                }
                filled += n;
                proof {
                    assert forall|i: int| 0 <= i < filled implies #[trigger] buf@[i]
                        == source.image()[offset + i] by {
                        if i < filled - n {
                            assert(buf@[i] == held[i]);
                        }
                    }
                }
            },
            Err(
                _) => return Err(
                    Error::from_text(
                        ErrorKind::Io,
                        Words::new("read at ")
                            .number(offset)
                            .say(" failed")
                            .end(),
                    ).at_offset(offset)),
        }
    }
    Ok(filled)
}

/// Fills `buf` completely, retrying short and interrupted reads.
pub fn read_exact_at<S: PageSource + ?Sized>(source: &S, buf: &mut [u8], offset: u64) -> (r: Result<
    (),
    Error,
>)
    ensures
        final(buf)@.len() == old(buf)@.len(),
        match r {
            Ok(_) => read_part(
                source.image(),
                final(buf)@,
                offset as int,
                old(buf)@.len() as int,
            ),
            Err(e) => {
                ||| e.kind() == ErrorKind::Io && (source.dependable() ==> offset + old(buf)@.len()
                    > source.image().len())
                ||| e.is_corrupt() && offset + old(buf)@.len() > u64::MAX
            },
        },
{
    let got = read_up_to_at(source, buf, offset)?;
    if got < buf.len() {
        return Err(
            Error::from_text(
                ErrorKind::Io,

                Words::new("unexpected end of file: wanted ")
                    .number(buf.len() as u64)
                    .say(" bytes at offset ")
                    .number(offset)
                    .say(", got ")
                    .number(got as u64)
                    .end(),
            ).at_offset(offset),
        );
    }
    Ok(())
}

/// An in-memory database image.
pub struct MemorySource {
    bytes: Arc<Vec<u8>>,
}

impl View for MemorySource {
    type V = Seq<u8>;

    closed spec fn view(&self) -> Seq<u8> {
        self.bytes@
    }
}

impl MemorySource {
    /// Wraps an owned image.
    pub fn new(bytes: Vec<u8>) -> (r: MemorySource)
        ensures
            r@ == bytes@,
    {
        MemorySource { bytes: Arc::new(bytes) }
    }
}

impl PageSource for MemorySource {
    open spec fn image(&self) -> Seq<u8> {
        self@
    }

    open spec fn dependable(&self) -> bool {
        true
    }

    fn read_at(&self, buf: &mut [u8], offset: u64) -> (r: Result<usize, std::io::Error>) {
        let len = self.bytes.len();
        if offset >= len as u64 {
            return Ok(0);
        }
        let at = offset as usize;
        let available = len - at;
        let n = if available < buf.len() {
            available
        } else {
            buf.len()
        };
        let mut i: usize = 0;
        while i < n
            invariant
                i <= n,
                n <= buf@.len(),
                buf@.len() == old(buf)@.len(),
                at == offset,
                at + n <= self.bytes@.len(),
                self.bytes@.len() <= usize::MAX,
                forall|j: int| 0 <= j < i ==> #[trigger] buf@[j] == self.bytes@[offset + j],
                kept_past(old(buf)@, buf@, i as int),
            decreases n - i,
        {
            buf[i] = self.bytes[at + i];
            i += 1;
        }
        Ok(n)
    }

    fn size(&self) -> (r: Result<u64, std::io::Error>) {
        Ok(self.bytes.len() as u64)
    }

    fn describe(&self) -> (r: String)
        ensures
            r@ == "in-memory image ("@ + crate::error::decimal(self@.len()) + " bytes)"@,
    {
        crate::error::message_with("in-memory image (", self.bytes.len() as u64, " bytes)")
    }
}

/// What was read of an image is there, byte for byte, from where it was read.
pub proof fn lemma_read_part(image: Seq<u8>, buf: Seq<u8>, offset: int, n: int)
    requires
        0 <= offset,
        read_part(image, buf, offset, n),
    ensures
        n <= buf.len(),
        n > 0 ==> offset + n <= image.len() && buf.subrange(0, n) == image.subrange(
            offset,
            offset + n,
        ),
{
    if n > 0 {
        assert(buf.subrange(0, n) =~= image.subrange(offset, offset + n));
    }
}

} // verus!

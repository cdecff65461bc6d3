//! Page filters.
//!
//! A filter transforms a page's bytes after the 28-byte prefix. The prefix (page
//! length plus node header) is always stored raw, which is what lets the builder
//! back-patch sibling pointers into a page it has already compressed, and lets the
//! reader learn a page's stored length with one 4-byte read.
//!
//! The header can name several filters, but no writer of this format produces such a
//! file, so there is no chaining order to follow: a file that names more than one filter
//! is rejected.

use std::sync::atomic::{AtomicU64, Ordering};
use std::sync::Arc;

use vstd::prelude::*;
use vstd::string::*;

use crate::error::{Error, ErrorKind, Words};

verus! {

/// A reversible transform applied to page payloads.
///
/// The spec functions have defaults, for implementations that nothing is proved of; one that
/// is verified gives its own.
pub trait PageFilter: Send + Sync {
    /// The registry id.
    open spec fn name(&self) -> Seq<char> {
        Seq::empty()
    }

    /// The payload that an encoded payload stands for, when it stands for one.
    open spec fn content(&self, stored: Seq<u8>) -> Option<Seq<u8>> {
        None
    }

    /// How large an encoded payload says its content is.
    open spec fn announced(&self, stored: Seq<u8>) -> Option<usize> {
        None
    }

    /// Whether the filter fails only for the payload's sake: encoding always works, and
    /// decoding works whenever there is content and room for it. A filter that needs
    /// memory of its own cannot promise that.
    open spec fn dependable(&self) -> bool {
        false
    }

    /// Whether the filter may say that it needs this much memory of its own.
    open spec fn needs(&self, bytes: u64) -> bool {
        true
    }

    /// Whether the filter may say that telling what it needs costs this much.
    open spec fn probes(&self, bytes: u64) -> bool {
        true
    }

    /// Whether decoding a payload into this much room was tried, and failed.
    open spec fn gave_up(&self, stored: Seq<u8>, limit: usize) -> bool {
        true
    }

    /// Registry id, stored in the file header.
    fn id(&self) -> (r: &str)
        ensures
            r@ == self.name(),
    ;

    /// Transforms a page payload on the way out.
    ///
    /// `input` is the page without its 28-byte prefix, which is always stored raw. What
    /// `out` held is replaced by the encoded payload.
    fn encode(&self, input: &[u8], out: &mut Vec<u8>) -> (r: Result<(), Error>)
        ensures
            match r {
                Ok(_) => self.content(final(out)@) == Some(input@) && (self.announced(
                    final(out)@,
                ) matches Some(n) ==> n == input@.len()),
                Err(e) => e.kind() == ErrorKind::Io && !self.dependable(),
            },
    ;

    /// Memory this filter needs of its own while decoding one page.
    ///
    /// Reserved around a decode, on top of the decoded page itself. A filter that calls
    /// into a library allocating through something other than Rust's allocator is memory
    /// this crate cannot see but can still account for, provided the filter says how
    /// much: zstd's decompression context is such a case.
    fn working_set_bytes(&self) -> (r: u64)
        ensures
            r == 0 || self.needs(r),
    {
        0
    }

    /// What asking [`PageFilter::working_set_bytes`] costs while it answers.
    ///
    /// Zero for a filter that knows its own answer. A filter that has to measure
    /// something allocates to do it, and a reader that reserved only the answer would
    /// have gone over the budget asking the question. The reader reserves this first and
    /// refuses the file if it does not fit, so a budget too small for the filter never
    /// allocates anything for it.
    fn probe_bytes(&self) -> (r: u64)
        ensures
            r == 0 || self.probes(r),
    {
        0
    }

    /// How large the decoded payload will be, when the encoded form says so.
    ///
    /// Returning `Some` lets the reader reserve exactly that much instead of the
    /// configured decoded-page limit, which keeps a compressed database readable inside
    /// a modest memory budget. Returning `None` is always allowed; the reader then
    /// reserves the limit.
    fn decoded_size_hint(&self, input: &[u8]) -> (r: Option<usize>)
        ensures
            r == self.announced(input@),
    ;

    /// Reverses [`Self::encode`].
    ///
    /// What `out` held is replaced by the decoded payload, which may be at most `limit`
    /// bytes: a filter that would need more room must return an error instead, so that a
    /// crafted page cannot turn into an unbounded allocation.
    fn decode(&self, input: &[u8], limit: usize, out: &mut Vec<u8>) -> (r: Result<(), Error>)
        ensures
            match r {
                Ok(_) => self.content(input@) == Some(final(out)@) && final(out)@.len() <= limit,
                Err(e) => {
                    &&& e.is_corrupt()
                    &&& self.gave_up(input@, limit)
                    &&& self.dependable() ==> self.content(input@) is None || self.content(
                        input@,
                    )->Some_0.len() > limit
                },
            },
    ;
}

/// A filter that several owners share.
pub struct SharedFilter {
    pub inner: Arc<Box<dyn PageFilter>>,
}

impl Clone for SharedFilter {
    fn clone(&self) -> (r: Self)
        ensures
            r == *self,
    {
        SharedFilter { inner: self.inner.clone() }
    }
}

impl SharedFilter {
    /// Whether this is the built-in zstd filter.
    pub open spec fn is_zstd(&self) -> bool {
        &&& self.inner.name() == "DryDB.ZstdCompression"@
        &&& forall|s: Seq<u8>| #[trigger] self.inner.content(s) == zstd_content(s)
        &&& forall|s: Seq<u8>| #[trigger] self.inner.announced(s) == zstd_frame_size(s)
        &&& !self.inner.dependable()
    }

    /// The built-in zstd filter.
    pub fn zstd(filter: ZstdFilter) -> (r: SharedFilter)
        ensures
            r.is_zstd(),
    {
        SharedFilter { inner: Arc::new(Box::new(filter)) }
    }
}

/// Resolves filter ids to implementations.
///
/// The built-in `DryDB.ZstdCompression` filter resolves without registration. Custom
/// filters are registered per database.
pub struct FilterRegistry {
    custom: Vec<SharedFilter>,
}

impl View for FilterRegistry {
    type V = Map<Seq<char>, SharedFilter>;

    /// The registered filters by id.
    closed spec fn view(&self) -> Map<Seq<char>, SharedFilter> {
        registered(self.custom@)
    }
}

/// The filters of a list by id, a later one replacing an earlier one.
spec fn registered(list: Seq<SharedFilter>) -> Map<Seq<char>, SharedFilter>
    decreases list.len(),
{
    if list.len() == 0 {
        Map::empty()
    } else {
        registered(list.drop_last()).insert(list.last().inner.name(), list.last())
    }
}

/// What a list resolves an id to: the last entry with that id.
proof fn lemma_registered(list: Seq<SharedFilter>, id: Seq<char>, at: int)
    requires
        0 <= at <= list.len(),
        forall|j: int| at <= j < list.len() ==> (#[trigger] list[j]).inner.name() != id,
    ensures
        at == 0 ==> !registered(list).contains_key(id),
        at > 0 && list[at - 1].inner.name() == id ==> registered(list).contains_key(id)
            && registered(list)[id] == list[at - 1],
    decreases list.len(),
{
    if at < list.len() {
        lemma_registered(list.drop_last(), id, at);
    }
}

impl Default for FilterRegistry {
    fn default() -> (r: Self)
        ensures
            r@ == Map::<Seq<char>, SharedFilter>::empty(),
    {
        FilterRegistry::new()
    }
}

impl Clone for FilterRegistry {
    fn clone(&self) -> (r: Self)
        ensures
            r@ == self@,
    {
        let mut custom: Vec<SharedFilter> = Vec::new();
        let mut i: usize = 0;
        while i < self.custom.len()
            invariant
                i <= self.custom@.len(),
                custom@ == self.custom@.subrange(0, i as int),
            decreases self.custom@.len() - i,
        {
            custom.push(self.custom[i].clone());
            i += 1;
            proof {
                assert(custom@ =~= self.custom@.subrange(0, i as int));
            }
        }
        proof {
            assert(custom@ =~= self.custom@);
        }
        FilterRegistry { custom }
    }
}

impl FilterRegistry {
    /// An empty registry; built-ins still resolve.
    pub fn new() -> (r: FilterRegistry)
        ensures
            r@ == Map::<Seq<char>, SharedFilter>::empty(),
    {
        FilterRegistry { custom: Vec::new() }
    }

    /// Registers a filter, replacing any previous one with the same id.
    pub fn register(&mut self, filter: SharedFilter)
        ensures
            final(self)@ == old(self)@.insert(filter.inner.name(), filter),
    {
        self.custom.push(filter);
        proof {
            assert(self.custom@.drop_last() =~= old(self).custom@);
        }
    }

    /// Resolves an id, or reports [`ErrorKind::UnknownFilter`].
    pub fn resolve(&self, id: &str) -> (r: Result<SharedFilter, Error>)
        ensures
            match r {
                Ok(f) => if self@.contains_key(id@) {
                    f == self@[id@]
                } else {
                    id@ == "DryDB.ZstdCompression"@ && f.is_zstd()
                },
                Err(e) => !self@.contains_key(id@) && id@ != "DryDB.ZstdCompression"@ && e.kind()
                    == ErrorKind::UnknownFilter,
            },
    {
        let wanted = id.to_owned();
        let mut i: usize = self.custom.len();
        while i > 0
            invariant
                i <= self.custom@.len(),
                wanted@ == id@,
                forall|j: int|
                    i <= j < self.custom@.len() ==> (#[trigger] self.custom@[j]).inner.name()
                        != id@,
            decreases i,
        {
            i -= 1;
            if self.custom[i].inner.id().to_owned() == wanted {
                proof {
                    lemma_registered(self.custom@, id@, i + 1);
                }
                return Ok(self.custom[i].clone());
            }
        }
        proof {
            lemma_registered(self.custom@, id@, 0);
        }
        if wanted == ZSTD_FILTER_ID.to_owned() {
            return Ok(SharedFilter::zstd(ZstdFilter::default()));
        }
        Err(
            Error::from_text(
                ErrorKind::UnknownFilter,
                Words::new("page filter `")
                    .say(id)
                    .say("` is not registered")
                    .end(),
            ),
        )
    }
}

/// Id of the zstd page filter.
pub const ZSTD_FILTER_ID: &'static str = "DryDB.ZstdCompression";

/// What a zstd frame decompresses to.
pub uninterp spec fn zstd_content(frame: Seq<u8>) -> Option<Seq<u8>>;

/// The content size a zstd frame header announces.
pub uninterp spec fn zstd_announced(frame: Seq<u8>) -> Option<u64>;

/// The announced content size, when it can be a size in memory.
pub open spec fn zstd_frame_size(frame: Seq<u8>) -> Option<usize> {
    match zstd_announced(frame) {
        Some(n) if n <= usize::MAX => Some(n as usize),
        _ => None,
    }
}

/// Calls `zstd_safe::compress_bound`: a size that the compressed form of `len` bytes never
/// exceeds. Nothing is claimed of the number; it only sizes the output buffer.
#[verifier::external_body]
fn zstd_bound(len: usize) -> (r: usize) {
    zstd_safe::compress_bound(len)
}

/// Calls `zstd_safe::compress` into a buffer of `room` bytes: what comes out decompresses
/// to the input and announces its size. It fails when the room does not suffice or memory
/// runs out. No buffer is larger than `isize::MAX` bytes, so no more room is asked for.
#[verifier::external_body]
fn zstd_compress(input: &[u8], level: i32, room: usize) -> (r: Result<Vec<u8>, usize>)
    requires
        room <= isize::MAX,
    ensures
        r matches Ok(frame) ==> zstd_content(frame@) == Some(input@) && zstd_announced(frame@)
            == Some(input@.len() as u64),
{
    let mut out = vec![0u8; room];
    let n = zstd_safe::compress(&mut out[..], input, level)?;
    out.truncate(n);
    Ok(out)
}

/// Calls `zstd_safe::decompress` into a buffer of exactly `limit` bytes: what comes out is
/// what the frame stands for. It fails when the input is no frame, when the content does
/// not fit, or when memory runs out, so a failure says nothing of the input. No buffer is
/// larger than `isize::MAX` bytes, so no larger limit is given.
#[verifier::external_body]
fn zstd_decompress(input: &[u8], limit: usize) -> (r: Result<Vec<u8>, usize>)
    requires
        limit <= isize::MAX,
    ensures
        r matches Ok(out) ==> zstd_content(input@) == Some(out@) && out@.len() <= limit,
{
    let mut out = vec![0u8; limit];
    let n = zstd_safe::decompress(&mut out[..], input)?;
    out.truncate(n);
    Ok(out)
}

/// Calls `zstd_safe::get_frame_content_size`: the content size the frame header announces,
/// when it announces one.
#[verifier::external_body]
fn zstd_header_size(input: &[u8]) -> (r: Option<u64>)
    ensures
        r == zstd_announced(input@),
{
    zstd_safe::get_frame_content_size(input).unwrap_or(None)
}

/// Calls `zstd_safe::get_error_name`: the library's words for an error code.
#[verifier::external_body]
fn zstd_error_name(code: usize) -> (r: &'static str) {
    zstd_safe::get_error_name(code)
}

/// Reads `zstd_safe::CLEVEL_DEFAULT`, the level the library calls its default.
#[verifier::external_body]
fn zstd_default_level() -> (r: i32)
    ensures
        r == 3,
{
    zstd_safe::CLEVEL_DEFAULT
}

/// Makes a `zstd_safe::DCtx`, decodes `frame` with it once, and asks for its size. The
/// number is the library's own and differs between builds, so nothing is claimed of it.
#[verifier::external_body]
fn zstd_context_size(frame: &[u8]) -> (r: u64) {
    match zstd_safe::DCtx::try_create() {
        Some(mut context) => {
            let mut out = vec![0u8; 8];
            let _ = context.decompress(&mut out[..], frame);
            context.sizeof() as u64
        },
        None => 0,
    }
}

/// The `DryDB.ZstdCompression` filter: one raw zstd frame per page payload, no extra
/// framing.
#[derive(Debug, Clone)]
pub struct ZstdFilter {
    level: i32,
    /// What one decompression context was found to cost; nothing before it is measured.
    measured: Arc<AtomicU64>,
}

impl Default for ZstdFilter {
    fn default() -> (r: Self)
        ensures
            r.compression_level() == 3,
    {
        ZstdFilter::with_level(zstd_default_level())
    }
}

/// The smallest figure the zstd filter will claim, and what the measurement is allowed
/// to cost.
///
/// A floor, so a measurement that comes back implausibly small still reserves something of
/// the right order, and an upper bound on the context the measurement itself makes.
pub const WORKING_SET_FLOOR: u64 = 0x2_0000;

impl ZstdFilter {
    /// The level this filter compresses at.
    pub closed spec fn compression_level(&self) -> i32 {
        self.level
    }

    /// Whether this figure was read as what was measured.
    pub closed spec fn noted(&self, known: u64) -> bool {
        call_ensures(AtomicU64::load, (&*self.measured, Ordering::Relaxed), known)
    }

    /// Whether this figure is what measuring a context came to.
    pub closed spec fn found(bytes: u64) -> bool {
        exists|measured: u64| #[trigger] measured_as(probe_bytes_of(), measured) && bytes == (
        if measured > WORKING_SET_FLOOR {
            measured
        } else {
            WORKING_SET_FLOOR
        })
    }

    /// Whether a payload was handed to the library at this filter's level, and this is what
    /// came of it: the frame, its error, or nothing where no buffer is large enough.
    pub closed spec fn compressed(&self, input: &[u8], out: Vec<u8>, r: Result<(), Error>) -> bool {
        exists|room: usize| #[trigger]
            call_ensures(zstd_bound, (input@.len() as usize,), room) && match r {
                Ok(_) => room <= isize::MAX && call_ensures(
                    zstd_compress,
                    (input, self.level, room),
                    Ok::<Vec<u8>, usize>(out),
                ),
                Err(_) => room > isize::MAX || exists|code: usize| #[trigger]
                    call_ensures(
                        zstd_compress,
                        (input, self.level, room),
                        Err::<Vec<u8>, usize>(code),
                    ),
            }
    }

    /// A filter compressing at `level`. The level only affects writing.
    pub fn with_level(level: i32) -> (r: ZstdFilter)
        ensures
            r.compression_level() == level,
    {
        ZstdFilter { level, measured: Arc::new(AtomicU64::new(0)) }
    }
}

/// What the probe frame holds.
spec fn probe_bytes_of() -> Seq<u8> {
    seq![
        0x28, 0xb5, 0x2f, 0xfd, 0x24, 0x05, 0x29, 0x00, 0x00, 0x64, 0x72, 0x79, 0x64, 0x62, 0xb2,
        0xf5, 0x52, 0xf5,
    ]
}

/// Whether a context that decoded a frame was measured, and this is what it came to.
spec fn measured_as(frame: Seq<u8>, bytes: u64) -> bool {
    exists|given: &[u8]| given@ == frame && #[trigger] call_ensures(
        zstd_context_size,
        (given,),
        bytes,
    )
}

/// Whether decompressing a payload into this much room, or all there can be, was tried and
/// failed.
pub closed spec fn zstd_failed(stored: Seq<u8>, limit: usize) -> bool {
    exists|given: &[u8], room: usize, code: usize|
        given@ == stored && room == (if limit > isize::MAX {
            isize::MAX as usize
        } else {
            limit
        }) && #[trigger] call_ensures(
            zstd_decompress,
            (given, room),
            Err::<Vec<u8>, usize>(code),
        )
}

/// The most bytes one buffer can hold.
fn largest_buffer() -> (r: usize)
    ensures
        r == isize::MAX,
{
    isize::MAX as usize
}

/// A zstd frame holding the five bytes `drydb`, written at the default level.
///
/// A constant rather than something compressed on the spot, so that measuring the
/// decompression context does not build a compression context beside it. What the
/// measurement costs is reserved before it runs, and the reservation has to bound it.
fn probe_frame() -> (r: [u8; 18])
    ensures
        r@ == probe_bytes_of(),
{
    [
        0x28, 0xb5, 0x2f, 0xfd, 0x24, 0x05, 0x29, 0x00, 0x00, 0x64, 0x72, 0x79, 0x64, 0x62, 0xb2,
        0xf5, 0x52, 0xf5,
    ]
}

impl PageFilter for ZstdFilter {
    open spec fn name(&self) -> Seq<char> {
        "DryDB.ZstdCompression"@
    }

    open spec fn content(&self, stored: Seq<u8>) -> Option<Seq<u8>> {
        zstd_content(stored)
    }

    open spec fn announced(&self, stored: Seq<u8>) -> Option<usize> {
        zstd_frame_size(stored)
    }

    open spec fn dependable(&self) -> bool {
        false
    }

    /// What was measured, or less where that is implausible.
    open spec fn needs(&self, bytes: u64) -> bool {
        bytes >= WORKING_SET_FLOOR && (self.noted(bytes) || ZstdFilter::found(bytes))
    }

    open spec fn probes(&self, bytes: u64) -> bool {
        bytes == WORKING_SET_FLOOR && exists|known: u64|
            #[trigger] self.noted(known) && known < WORKING_SET_FLOOR
    }

    open spec fn gave_up(&self, stored: Seq<u8>, limit: usize) -> bool {
        zstd_failed(stored, limit)
    }

    fn id(&self) -> (r: &str) {
        ZSTD_FILTER_ID
    }

    fn encode(&self, input: &[u8], out: &mut Vec<u8>) -> (r: Result<(), Error>)
        ensures
            self.compressed(input, *final(out), r),
    {
        let len = input.len();
        let room = zstd_bound(len);
        proof {
            assert(len == input@.len() as usize);
            assert(call_ensures(zstd_bound, (len,), room));
        }
        if room > largest_buffer() {
            return Err(Error::io("zstd compression failed: the payload is too large"));
        }
        match zstd_compress(input, self.level, room) {
            Ok(frame) => {
                proof {
                    assert(call_ensures(
                        zstd_compress,
                        (input, self.level, room),
                        Ok::<Vec<u8>, usize>(frame),
                    ));
                }
                *out = frame;
                Ok(())
            },
            Err(code) => {
                proof {
                    assert(call_ensures(
                        zstd_compress,
                        (input, self.level, room),
                        Err::<Vec<u8>, usize>(code),
                    ));
                }
                let mut message = "zstd compression failed: ".to_owned();
                message.append(zstd_error_name(code));
                Err(Error::from_text(ErrorKind::Io, message))
            },
        }
    }

    /// What one decompression context costs, asked of zstd itself.
    ///
    /// zstd allocates its context through C's allocator, so nothing on the Rust side
    /// sees it. Reading it from zstd rather than writing a number down keeps it right
    /// across versions and platforms.
    fn working_set_bytes(&self) -> (r: u64)
        ensures
            r >= WORKING_SET_FLOOR,
    {
        let known = self.measured.load(Ordering::Relaxed);
        if known >= WORKING_SET_FLOOR {
            return known;
        }
        let frame = probe_frame();
        let measured = zstd_context_size(frame.as_slice());
        proof {
            assert(measured_as(frame@, measured));
        }
        let figure = if measured > WORKING_SET_FLOOR {
            measured
        } else {
            WORKING_SET_FLOOR
        };
        self.measured.store(figure, Ordering::Relaxed);
        figure
    }

    /// Nothing, once this filter or a clone of it has measured; the measurement until then.
    fn probe_bytes(&self) -> (r: u64)
        ensures
            exists|known: u64|
                #[trigger] self.noted(known) && r == (if known >= WORKING_SET_FLOOR {
                    0
                } else {
                    WORKING_SET_FLOOR
                }),
    {
        let known = self.measured.load(Ordering::Relaxed);
        proof {
            assert(self.noted(known));
        }
        if known >= WORKING_SET_FLOOR {
            0
        } else {
            WORKING_SET_FLOOR
        }
    }

    fn decoded_size_hint(&self, input: &[u8]) -> (r: Option<usize>) {
        // A frame written in one step records its content size. One written by a
        // streaming encoder without a pledged size does not.
        match zstd_header_size(input) {
            Some(size) => if size <= usize::MAX as u64 {
                Some(size as usize)
            } else {
                None
            },
            None => None,
        }
    }

    fn decode(&self, input: &[u8], limit: usize, out: &mut Vec<u8>) -> (r: Result<(), Error>) {
        let most = largest_buffer();
        let room = if limit > most {
            most
        } else {
            limit
        };
        let ghost given = input;
        match zstd_decompress(input, room) {
            Ok(content) => {
                *out = content;
                Ok(())
            },
            Err(code) => {
                proof {
                    assert(call_ensures(
                        zstd_decompress,
                        (given, room),
                        Err::<Vec<u8>, usize>(code),
                    ));
                    assert(zstd_failed(input@, limit));
                }
                Err(
                    Error::corrupt_words(
                        Words::new("zstd decompression failed: ").say(zstd_error_name(code)).say(
                            " (decoded page limit is ",
                        ).number(room as u64).say(" bytes)"),
                    ),
                )
            },
        }
    }
}

/// The filter that comes with the library: its id, and what it makes of a payload, which is what
/// zstd makes of it. It never says that it needs less than 128 kibibytes.
pub proof fn lemma_zstd(f: ZstdFilter, stored: Seq<u8>, n: u64)
    ensures
        f.name() == "DryDB.ZstdCompression"@,
        f.content(stored) == zstd_content(stored),
        f.announced(stored) matches Some(size) ==> zstd_announced(stored) == Some(size as u64),
        zstd_announced(stored) is None ==> f.announced(stored) is None,
        f.needs(n) ==> n >= 128 * 1024,
        f.probes(n) ==> n == 128 * 1024,
        !f.dependable(),
{
}

} // verus!

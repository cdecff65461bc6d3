//! Streaming reads of values stored on their own page.
//!
//! [`Table::get`](crate::db::Table::get) hands back a guard over the whole blob page, which
//! means the page is resident and charged to the budget for as long as the guard lives.
//! For a value too large to want resident, `BlobReader` reads straight from the file in
//! caller-sized chunks and never allocates the whole value.
//!
//! It bypasses the page cache, so it only works on an unfiltered database: a compressed
//! page has to be decoded as a whole before any of its bytes mean anything.

use std::sync::Arc;

use vstd::prelude::*;

use crate::budget::{let_go, Charged, BUFFER_OVERHEAD};
use crate::error::{Error, ErrorKind, Words, message_with};
use crate::format::bytes::{self, checked_len, put_le4, read_i32, zeroed};
use crate::format::node::{self, NodeKind, PageView};
use crate::format::{
    PageOrdinal, ENTRY_COUNT_OFFSET, KIND_OFFSET, LEFT_SIBLING_OFFSET, PAGE_PREFIX_LEN,
    RIGHT_SIBLING_OFFSET,
};
use crate::io::{self, read_exact_at, read_up_to_at, PageSource, SharedSource};
use crate::store::PageStore;

verus! {

broadcast use crate::format::group_format;

/// The largest chunk [`BlobReader::copy_to`] reads at once.
pub const MAX_CHUNK: usize = 0x10_0000;

/// How much a copy reads at once, given how much its caller would read.
pub open spec fn chunk_len(chunk_size: int) -> int {
    if chunk_size < 1 {
        1
    } else if chunk_size > MAX_CHUNK {
        MAX_CHUNK as int
    } else {
        chunk_size
    }
}

/// What the buffer of a copy costs, given how much its caller would read at once.
pub open spec fn chunk_cost(chunk_size: int) -> u64 {
    (chunk_len(chunk_size) + BUFFER_OVERHEAD) as u64
}

/// Where to move a reader to.
#[derive(Debug, Clone, Copy, PartialEq, Eq)]
pub enum SeekFrom {
    /// From the start of the value.
    Start(u64),
    /// From the end of the value.
    End(i64),
    /// From where the reader is.
    Current(i64),
}

/// A positional reader over one blob page's payload.
pub struct BlobReader {
    source: SharedSource,
    /// Kept so the reader can reserve the buffers it makes, the way every other path in
    /// this crate does, reclaiming from the cache when it has to.
    store: Arc<PageStore>,
    page: PageOrdinal,
    start: u64,
    len: u64,
    pos: u64,
}

/// A blob page's prefix, as if the page held nothing else.
pub open spec fn bare_prefix(prefix: Seq<u8>) -> Seq<u8> {
    bytes::le4(PAGE_PREFIX_LEN as int) + prefix.subrange(4, PAGE_PREFIX_LEN as int)
}

/// Whether a page holds a value that can be streamed: it is a blob page, and one whose
/// prefix is all there is before the value.
pub open spec fn streamable(store: &PageStore, page: PageOrdinal) -> bool {
    store.is_blob(page) && !node::page_layout(store.pages()[page]).compact_meta
}

/// The prefix of a blob page says the same on its own.
proof fn lemma_bare_prefix(p: Seq<u8>, prefix: Seq<u8>)
    requires
        p.len() >= PAGE_PREFIX_LEN,
        prefix == p.subrange(0, PAGE_PREFIX_LEN as int),
    ensures
        node::page_kind(bare_prefix(prefix)) == node::page_kind(p),
        node::page_count(bare_prefix(prefix)) == node::page_count(p),
        node::page_ok(p) && node::page_count(p) == 0 && !node::page_layout(p).compact_meta
            ==> node::page_ok(bare_prefix(prefix)),
{
    let bare = bare_prefix(prefix);
    assert(bare.len() == PAGE_PREFIX_LEN);
    assert forall|i: int| 4 <= i < PAGE_PREFIX_LEN implies bare[i] == p[i] by {
        assert(bare[i] == prefix[i]);
    }
    assert(bare.subrange(0, 4) =~= bytes::le4(PAGE_PREFIX_LEN as int));
    bytes::lemma_u32_read_back(bare, 0, PAGE_PREFIX_LEN as int);
    assert(bare.subrange(4, 8) =~= p.subrange(4, 8));
    assert(bare.subrange(8, 12) =~= p.subrange(8, 12));
    assert(bare.subrange(12, 20) =~= p.subrange(12, 20));
    assert(bare.subrange(20, 28) =~= p.subrange(20, 28));
    bytes::lemma_u32_moved(bare, KIND_OFFSET as int, p, KIND_OFFSET as int);
    bytes::lemma_u32_moved(
        bare,
        ENTRY_COUNT_OFFSET as int,
        p,
        ENTRY_COUNT_OFFSET as int,
    );
    bytes::lemma_u64_moved(
        bare,
        LEFT_SIBLING_OFFSET as int,
        p,
        LEFT_SIBLING_OFFSET as int,
    );
    bytes::lemma_u64_moved(
        bare,
        RIGHT_SIBLING_OFFSET as int,
        p,
        RIGHT_SIBLING_OFFSET as int,
    );
}

impl BlobReader {
    /// Whether the reader has read nothing past its value's page.
    #[verifier::type_invariant]
    spec fn sound(&self) -> bool {
        &&& self.start + self.len <= u64::MAX
        &&& self.source == self.store.spec_source()
    }

    /// The store the value is in.
    pub closed spec fn spec_store(&self) -> Arc<PageStore> {
        self.store
    }

    /// The blob page.
    pub closed spec fn spec_page(&self) -> PageOrdinal {
        self.page
    }

    /// Where the value starts in the file.
    pub closed spec fn start(&self) -> int {
        self.start as int
    }

    /// Value length in bytes.
    pub closed spec fn spec_len(&self) -> nat {
        self.len as nat
    }

    /// Where the next [`BlobReader::read`] starts.
    pub closed spec fn spec_pos(&self) -> u64 {
        self.pos
    }

    /// The bytes of the file.
    pub open spec fn image(&self) -> Seq<u8> {
        self.spec_store().spec_source().inner.image()
    }

    /// Whether the length is the one that the page declares, no more than a page may have and
    /// no further than to what follows the page, and the page says that it has no entries.
    pub open spec fn declared(&self) -> bool {
        let at = self.start() - PAGE_PREFIX_LEN;
        let stored = self.spec_len() + PAGE_PREFIX_LEN;
        let bare = bare_prefix(self.image().subrange(at, at + PAGE_PREFIX_LEN));
        let file = self.spec_store().file();
        &&& 0 <= at && at + PAGE_PREFIX_LEN <= self.image().len()
        &&& bytes::i32_at(self.image(), at) == stored
        &&& stored <= self.spec_store().spec_limits().max_stored_page_bytes
        &&& file.end_limit(self.spec_page(), at) matches Some(end) && at + stored <= end
        &&& node::page_ok(bare)
        &&& node::page_kind(bare) == NodeKind::Leaf
        &&& node::page_count(bare) == 0
    }

    /// Whether the whole value is in the file.
    pub open spec fn complete(&self) -> bool {
        self.start() + self.spec_len() <= self.image().len()
    }

    /// The value.
    pub open spec fn spec_value(&self) -> Seq<u8> {
        if self.spec_len() == 0 {
            Seq::empty()
        } else {
            self.image().subrange(self.start(), self.start() + self.spec_len())
        }
    }

    /// A value that is in the file is as long as the reader says.
    pub proof fn lemma_complete(&self)
        requires
            self.complete(),
        ensures
            self.spec_value().len() == self.spec_len(),
    {
    }

    /// Opens a reader on a blob page.
    pub(crate) fn open(store: &Arc<PageStore>, page: PageOrdinal) -> (r: Result<BlobReader, Error>)
        ensures
            match r {
                Ok(b) => {
                    &&& store.file().filter is None
                    &&& b.spec_store() == *store
                    &&& b.spec_page() == page
                    &&& b.spec_pos() == 0
                    &&& store.file().section.offset(page) matches Some(o) && b.start() == o.get()
                        + PAGE_PREFIX_LEN
                    &&& b.declared()
                    &&& store.is_blob(page) ==> b.complete() && b.spec_value()
                        == store.pages()[page].subrange(
                        PAGE_PREFIX_LEN as int,
                        store.pages()[page].len() as int,
                    )
                },
                Err(e) => {
                    ||| store.file().filter is Some && e.kind() == ErrorKind::Unsupported
                    ||| store.file().filter is None && store.failure(
                        page,
                        e,
                        store.pages().contains_key(page),
                    )
                    ||| store.file().filter is None && e.is_corrupt() && !streamable(
                        &**store,
                        page,
                    )
                },
            },
    {
        if store.has_filter() {
            return Err(
                Error::new(
                    ErrorKind::Unsupported,
                    "blob streaming needs an unfiltered database: a filtered page has to be decoded in full before any of its bytes can be read",
                ),
            );
        }
        let source = store.source();
        let ghost file = store.file();
        let ghost image = file.section.image;
        let offset = match store.offset_of(page) {
            Ok(o) => o,
            Err(e) => return Err(e),
        };
        let ghost at = offset.get() as int;
        let ghost p = store.pages()[page];
        proof {
            store.lemma_parts();
            if store.is_blob(page) {
                assert(file.page(page) == Some(p));
                assert(p =~= image.subrange(at, at + p.len()));
            }
        }
        let mut prefix = zeroed(PAGE_PREFIX_LEN);
        match read_exact_at(&**source.inner, prefix.as_mut_slice(), offset.get()) {
            Ok(_) => {},
            Err(e) => return Err(e),
        }
        proof {
            assert(prefix@ =~= image.subrange(at, at + PAGE_PREFIX_LEN));
            assert(prefix@.subrange(0, 4) =~= image.subrange(at, at + 4));
            bytes::lemma_u32_moved(prefix@, 0, image, at);
            if store.is_blob(page) {
                assert(p.subrange(0, PAGE_PREFIX_LEN as int) =~= prefix@);
                lemma_bare_prefix(p, prefix@);
            }
        }
        let declared = match read_i32(prefix.as_slice(), 0) {
            Ok(n) => n,
            Err(e) => return Err(e),
        };
        let stored_len = match checked_len(declared, "negative page length") {
            Ok(n) => n,
            Err(e) => return Err(e),
        };
        if stored_len < PAGE_PREFIX_LEN {
            return Err(
                Error::corrupt_number(
                    "blob page length ",
                    stored_len as u64,
                    " is below the 28 byte prefix",
                ).at_page(page.get()),
            );
        }
        if stored_len > store.limits().max_stored_page_bytes {
            return Err(
                Error::corrupt_words(
                    Words::new("blob page length ")
                        .number(stored_len as u64)
                        .say(" exceeds the ")
                        .number(store.limits().max_stored_page_bytes as u64)
                        .say(" byte limit"),
                ).at_page(page.get()),
            );
        }
        // A page ends where the next one starts, and the last one ends at the page
        // directory. Without this the declared length alone would decide how far a read
        // goes, and a page claiming more would hand back what comes after it.
        let end = match offset.get().checked_add(stored_len as u64) {
            Some(end) => end,
            None => return Err(Error::corrupt("blob page end offset overflows")),
        };
        let limit = match store.page_limit(page, offset.get()) {
            Ok(limit) => limit,
            Err(e) => return Err(e),
        };
        if end > limit {
            return Err(
                Error::corrupt_words(
                    Words::new("blob page spans ")
                        .number(offset.get())
                        .say("..")
                        .number(end)
                        .say(", into what follows it"),
                ).at_page(page.get()),
            );
        }
        // Parse the prefix as if the page were exactly that long, to check kind and entry
        // count without reading the payload.
        let mut probe: Vec<u8> = Vec::new();
        put_le4(&mut probe, PAGE_PREFIX_LEN as u64);
        bytes::put_slice(
            &mut probe,
            vstd::slice::slice_subrange(prefix.as_slice(), 4, PAGE_PREFIX_LEN),
        );
        proof {
            assert(probe@ =~= bare_prefix(prefix@));
        }
        let view = match PageView::parse(probe.as_slice()) {
            Ok(v) => v,
            Err(e) => return Err(e.at_page(page.get())),
        };
        if view.kind() != NodeKind::Leaf || view.entry_count() != 0 {
            return Err(
                Error::corrupt_words(
                    Words::new("page ")
                        .number(page.get())
                        .say(" is referenced as a blob page but holds ")
                        .number(view.entry_count() as u64)
                        .say(" entries"),
                ).at_page(page.get()),
            );
        }
        let reader = BlobReader {
            source: source.clone(),
            store: Arc::clone(store),
            page,
            start: offset.get() + PAGE_PREFIX_LEN as u64,
            len: (stored_len - PAGE_PREFIX_LEN) as u64,
            pos: 0,
        };
        proof {
            if store.is_blob(page) {
                assert(reader.spec_value() =~= p.subrange(PAGE_PREFIX_LEN as int, p.len() as int));
            }
        }
        Ok(reader)
    }

    /// Value length in bytes.
    pub fn len(&self) -> (r: u64)
        ensures
            r == self.spec_len(),
    {
        self.len
    }

    /// Whether the value is empty.
    pub fn is_empty(&self) -> (r: bool)
        ensures
            r == (self.spec_len() == 0),
    {
        self.len == 0
    }

    /// The blob page.
    pub fn page(&self) -> (r: PageOrdinal)
        ensures
            r == self.spec_page(),
    {
        self.page
    }

    /// How many bytes a read of `want` bytes at `offset` gives.
    pub open spec fn available(&self, offset: int, want: int) -> int {
        if offset >= self.spec_len() {
            0
        } else if self.spec_len() - offset < want {
            self.spec_len() - offset
        } else {
            want
        }
    }

    /// Reads at most `buf.len()` bytes starting at `offset` within the value.
    pub fn read_at(&self, buf: &mut [u8], offset: u64) -> (r: Result<usize, Error>)
        ensures
            final(buf)@.len() == old(buf)@.len(),
            match r {
                Ok(n) => {
                    &&& n == self.available(offset as int, old(buf)@.len() as int)
                    &&& io::read_part(
                        self.image(),
                        final(buf)@,
                        self.start() + offset,
                        n as int,
                    )
                    &&& self.spec_store().spec_source().inner.dependable() ==> io::kept_past(
                        old(buf)@,
                        final(buf)@,
                        n as int,
                    )
                },
                Err(e) => e.kind() == ErrorKind::Io && (!self.complete()
                    || !self.spec_store().spec_source().inner.dependable()),
            },
    {
        proof {
            use_type_invariant(self);
        }
        if offset >= self.len {
            return Ok(0);
        }
        let remaining = self.len - offset;
        let want = if (buf.len() as u64) < remaining {
            buf.len()
        } else {
            remaining as usize
        };
        let (front, _) = buf.split_at_mut(want);
        let filled = match read_up_to_at(&**self.source.inner, front, self.start + offset) {
            Ok(n) => n,
            Err(e) => return Err(e),
        };
        if filled < want {
            return Err(
                Error::from_text(
                    ErrorKind::Io,
                    message_with("blob page ", self.page.get(), " is truncated in the file"),
                ).at_page(self.page.get()),
            );
        }
        Ok(filled)
    }

    /// The buffer of a copy that reads at most `chunk_size` bytes at once.
    ///
    /// Reserved before it is allocated, like every other buffer this crate makes on a
    /// caller's behalf. `chunk_size` is the caller's number.
    pub fn copy_buffer(&self, chunk_size: usize) -> (r: Result<Charged<Vec<u8>>, Error>)
        ensures
            match r {
                Ok(b) => {
                    &&& b.spec_value()@.len() == chunk_len(chunk_size as int)
                    &&& forall|i: int|
                        0 <= i < b.spec_value()@.len() ==> #[trigger] b.spec_value()@[i] == 0
                    &&& b.spec_charged() == chunk_cost(chunk_size as int)
                    &&& b.owner() == self.spec_store().spec_budget()
                },
                Err(e) => self.spec_store().lacks(chunk_cost(chunk_size as int), e),
            },
    {
        let chunk = if chunk_size < 1 {
            1
        } else if chunk_size > MAX_CHUNK {
            MAX_CHUNK
        } else {
            chunk_size
        };
        match self.store.reserve(chunk as u64 + BUFFER_OVERHEAD) {
            Ok(charge) => Ok(Charged::new(zeroed(chunk), charge)),
            Err(e) => Err(e),
        }
    }

    /// Appends the whole value to `out`, reading it in chunks of a fixed size. What was reserved
    /// for a chunk is given back before this returns.
    pub fn copy_to(&self, out: &mut Vec<u8>, chunk_size: usize) -> (r: Result<u64, Error>)
        ensures
            match r {
                Ok(n) => {
                    &&& n == self.spec_len()
                    &&& final(out)@ == old(out)@ + self.spec_value()
                    &&& self.spec_store().spec_budget().given_back(chunk_cost(chunk_size as int))
                },
                Err(e) => {
                    &&& old(out)@.is_prefix_of(final(out)@)
                    &&& {
                        ||| self.spec_store().lacks(chunk_cost(chunk_size as int), e)
                        ||| {
                            &&& e.kind() == ErrorKind::Io
                            &&& !self.complete()
                                || !self.spec_store().spec_source().inner.dependable()
                            &&& self.spec_store().spec_budget().given_back(
                                chunk_cost(chunk_size as int),
                            )
                        }
                    }
                },
            },
    {
        proof {
            use_type_invariant(self);
        }
        let (mut buf, mut charge) = match self.copy_buffer(chunk_size) {
            Ok(buffer) => buffer.into_inner(),
            Err(e) => return Err(e),
        };
        let mut offset: u64 = 0;
        while offset < self.len
            invariant
                offset <= self.len,
                self.start + self.len <= u64::MAX,
                buf@.len() >= 1,
                charge.owner() == self.spec_store().spec_budget(),
                charge.spec_bytes() == chunk_cost(chunk_size as int),
                self.len > 0 && offset > 0 ==> self.start() + offset <= self.image().len(),
                offset == 0 ==> out@ == old(out)@,
                offset > 0 ==> out@ == old(out)@ + self.image().subrange(
                    self.start(),
                    self.start() + offset,
                ),
            decreases self.len - offset,
        {
            let n = match self.read_at(buf.as_mut_slice(), offset) {
                Ok(n) => n,
                Err(e) => {
                    let_go(buf);
                    let held = charge.bytes();
                    charge.shrink(held);
                    return Err(e);
                },
            };
            bytes::put_slice(out, vstd::slice::slice_subrange(buf.as_slice(), 0, n));
            proof {
                assert(out@ =~= old(out)@ + self.image().subrange(
                    self.start(),
                    self.start() + offset + n,
                ));
            }
            offset = offset + n as u64;
        }
        // The buffer goes before the reservation that stood for it.
        let_go(buf);
        let held = charge.bytes();
        charge.shrink(held);
        Ok(offset)
    }

    /// Whether this is what a read comes to: what is in the buffer then, and where the reader is.
    pub open spec fn was_read(
        &self,
        reader: BlobReader,
        before: Seq<u8>,
        after: Seq<u8>,
        r: Result<usize, Error>,
    ) -> bool {
        &&& after.len() == before.len()
        &&& self.moved(reader)
        &&& match r {
            Ok(n) => {
                &&& n == self.available(self.spec_pos() as int, before.len() as int)
                &&& io::read_part(self.image(), after, self.start() + self.spec_pos(), n as int)
                &&& reader.spec_pos() == self.spec_pos() + n
            },
            Err(e) => reader.spec_pos() == self.spec_pos() && e.kind() == ErrorKind::Io && (
            !self.complete() || !self.spec_store().spec_source().inner.dependable()),
        }
    }

    /// Reads from where the reader is, and moves past what was read.
    pub fn read(&mut self, buf: &mut [u8]) -> (r: Result<usize, Error>)
        ensures
            old(self).was_read(*final(self), old(buf)@, final(buf)@, r),
    {
        proof {
            use_type_invariant(&*self);
        }
        let n = self.read_at(buf, self.pos)?;
        self.pos = self.pos + n as u64;
        Ok(n)
    }

    /// Whether two readers differ in where they are only.
    pub open spec fn moved(&self, other: BlobReader) -> bool {
        &&& self.spec_store() == other.spec_store()
        &&& self.spec_page() == other.spec_page()
        &&& self.start() == other.start()
        &&& self.spec_len() == other.spec_len()
    }

    /// Where a move leads.
    pub open spec fn target(&self, pos: SeekFrom) -> int {
        match pos {
            SeekFrom::Start(n) => n as int,
            SeekFrom::End(n) => self.spec_len() + n,
            SeekFrom::Current(n) => self.spec_pos() + n,
        }
    }

    /// Whether this is what a move comes to: what is answered, and where the reader is then.
    pub open spec fn sought(
        &self,
        pos: SeekFrom,
        r: Result<u64, Error>,
        after: BlobReader,
    ) -> bool {
        &&& self.moved(after)
        &&& match r {
            Ok(n) => n == self.target(pos) && after.spec_pos() == n,
            Err(e) => after.spec_pos() == self.spec_pos() && e.kind()
                == ErrorKind::InvalidArgument && !(0 <= self.target(pos) <= u64::MAX),
        }
    }

    /// A move is by as much as it is told, from where it is told.
    ///
    /// A move from where the reader is changes its position by the number given, one from the
    /// start ends up at the number given, and one from the end as far from the end of the value.
    /// It is refused exactly where that is no position, and then the reader stays where it is.
    pub proof fn lemma_seek(a: BlobReader, b: BlobReader, pos: SeekFrom, r: Result<u64, Error>)
        requires
            a.sought(pos, r, b),
        ensures
            a.moved(b),
            r matches Ok(n) ==> b.spec_pos() == n,
            r is Err ==> b.spec_pos() == a.spec_pos(),
            r matches Err(e) ==> e.kind() == ErrorKind::InvalidArgument,
            pos matches SeekFrom::Current(n) ==> (r is Ok ==> b.spec_pos() - a.spec_pos() == n),
            pos matches SeekFrom::Current(n) ==> (r is Err ==> a.spec_pos() + n < 0 || a.spec_pos()
                + n > u64::MAX),
            pos == SeekFrom::Current(0) ==> r is Ok && b.spec_pos() == a.spec_pos(),
            pos matches SeekFrom::Start(n) ==> r == Ok::<u64, Error>(n),
            pos matches SeekFrom::End(n) ==> (r is Ok ==> b.spec_pos() - a.spec_len() == n),
            pos matches SeekFrom::End(n) ==> (r is Err ==> a.spec_len() + n < 0 || a.spec_len() + n
                > u64::MAX),
            pos == SeekFrom::End(0) && a.spec_len() <= u64::MAX ==> r is Ok,
    {
    }

    /// A read gives the bytes of the value from where the reader is, as many as there is room
    /// for or as there are, and moves past them.
    pub proof fn lemma_read(
        a: BlobReader,
        b: BlobReader,
        before: Seq<u8>,
        after: Seq<u8>,
        r: Result<usize, Error>,
    )
        requires
            a.was_read(b, before, after, r),
            a.complete(),
            r is Ok,
        ensures
            a.moved(b),
            after.len() == before.len(),
            b.spec_pos() - a.spec_pos() == r->Ok_0,
            r->Ok_0 <= before.len(),
            r->Ok_0 < before.len() ==> b.spec_pos() >= a.spec_value().len(),
            a.spec_pos() >= a.spec_value().len() ==> r->Ok_0 == 0,
            a.spec_pos() <= a.spec_value().len() ==> b.spec_pos() <= a.spec_value().len(),
            forall|i: int|
                0 <= i < r->Ok_0 ==> #[trigger] after[i] == a.spec_value()[a.spec_pos() + i],
    {
        let n = r->Ok_0 as int;
        assert forall|i: int| 0 <= i < n implies #[trigger] after[i] == a.spec_value()[a.spec_pos()
            + i] by {
            let from = a.start() + a.spec_pos();
            assert(after.subrange(0, n)[i] == a.image().subrange(from, from + n)[i]);
        }
    }

    /// Going back by as much as was read is going back to where the read began.
    pub proof fn lemma_read_then_back(
        a: BlobReader,
        b: BlobReader,
        c: BlobReader,
        before: Seq<u8>,
        after: Seq<u8>,
        read: Result<usize, Error>,
        back: i64,
        r: Result<u64, Error>,
    )
        requires
            a.was_read(b, before, after, read),
            read is Ok,
            back == -(read->Ok_0),
            b.sought(SeekFrom::Current(back), r, c),
        ensures
            r == Ok::<u64, Error>(a.spec_pos()),
            c.spec_pos() == a.spec_pos(),
            a.moved(c),
    {
    }

    /// A copy reads at least a byte at once and at most a mebibyte, and what its caller asked for
    /// in between.
    pub proof fn lemma_chunk(chunk_size: int)
        ensures
            1 <= chunk_len(chunk_size) <= 0x10_0000,
            1 <= chunk_size <= 0x10_0000 ==> chunk_len(chunk_size) == chunk_size,
            chunk_size > 0x10_0000 ==> chunk_len(chunk_size) == 0x10_0000,
            chunk_cost(chunk_size) == chunk_len(chunk_size) + 192,
    {
    }

    /// Moves the reader.
    ///
    /// A position past the end is kept as asked for, the way a file does it, so that a
    /// later relative seek counts from where the caller put the position rather than from
    /// the end. Reading there gives no bytes.
    pub fn seek(&mut self, pos: SeekFrom) -> (r: Result<u64, Error>)
        ensures
            old(self).sought(pos, r, *final(self)),
    {
        proof {
            use_type_invariant(&*self);
        }
        let next: i128 = match pos {
            SeekFrom::Start(n) => n as i128,
            SeekFrom::End(n) => self.len as i128 + n as i128,
            SeekFrom::Current(n) => self.pos as i128 + n as i128,
        };
        if next < 0 {
            return Err(Error::invalid("cannot seek before the start of the value"));
        }
        if next > u64::MAX as i128 {
            return Err(Error::invalid("seek position does not fit in a 64 bit offset"));
        }
        self.pos = next as u64;
        Ok(self.pos)
    }
}

} // verus!

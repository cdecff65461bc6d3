//! The output file: page writing, sibling patching and the page directory.

use vstd::prelude::*;

use super::level;
use super::offsets::DirectorySpool;
use super::scratch::Scratch;
use super::target::{self, BuildTarget};
use crate::error::{Error, ErrorKind};
use crate::filter::{PageFilter, SharedFilter};
use crate::format::bytes::{self, put_le4, put_le8, put_slice};
use crate::format::{
    PageOrdinal, DIRECTORY_SLOT_LEN, PAGE_PREFIX_LEN, RIGHT_SIBLING_OFFSET,
};

verus! {

broadcast use crate::format::group_format;

/// How many bytes a page takes in the file.
pub open spec fn stored_len(filter: Option<SharedFilter>, file: Seq<u8>, at: int, page: Seq<u8>)
    -> int {
    match filter {
        None => page.len() as int,
        Some(_) => bytes::i32_at(file, at),
    }
}

/// Whether a page is stored at this place of a file: as it is, or with everything after
/// its 28-byte prefix filtered and its length field adjusted.
pub open spec fn stored_at(filter: Option<SharedFilter>, file: Seq<u8>, at: int, page: Seq<u8>)
    -> bool {
    let len = stored_len(filter, file, at, page);
    &&& 0 <= at
    &&& PAGE_PREFIX_LEN <= len <= 0x7FFF_FFFF
    &&& at + len <= file.len()
    &&& page.len() >= PAGE_PREFIX_LEN
    &&& bytes::i32_at(page, 0) == page.len()
    &&& match filter {
        None => file.subrange(at, at + len) == page,
        Some(f) => {
            let payload = file.subrange(at + PAGE_PREFIX_LEN, at + len);
            let raw = page.subrange(PAGE_PREFIX_LEN as int, page.len() as int);
            &&& file.subrange(at + 4, at + PAGE_PREFIX_LEN) == page.subrange(
                4,
                PAGE_PREFIX_LEN as int,
            )
            &&& f.inner.content(payload) == Some(raw)
            &&& f.inner.announced(payload) matches Some(n) ==> n == raw.len()
        },
    }
}

/// The file a database is being built into.
pub struct PageSink<T: BuildTarget, D: Scratch> {
    target: T,
    pos: u64,
    filter: Option<SharedFilter>,
    directory: DirectorySpool<D>,
    /// The pages written, as they were before any filter.
    pages: Ghost<Seq<Seq<u8>>>,
    /// Where the page area starts.
    base: Ghost<int>,
}

/// Whether a filter can make a page longer than the format can say.
pub open spec fn swells(filter: Option<SharedFilter>) -> bool {
    filter matches Some(f) && exists|stored: Seq<u8>|
        (#[trigger] f.inner.content(stored) matches Some(input) && input.len() <= 0x7FFF_FFFF)
            && stored.len() > 0x7FFF_FFFF - PAGE_PREFIX_LEN
}

/// Whether a file has at most `n` more pages than before.
pub open spec fn within<T: BuildTarget, D: Scratch>(a: &PageSink<T, D>, b: &PageSink<T, D>, n: int) -> bool {
    &&& b.pages().len() <= a.pages().len() + n
    &&& b.file().len() <= a.file().len() + n * 0x8000_0000
    &&& b.filter() == a.filter()
}

impl<T: BuildTarget, D: Scratch> PageSink<T, D> {
    /// Everything written so far.
    pub closed spec fn file(&self) -> Seq<u8> {
        self.target.written()
    }

    /// The pages written, as they were before any filter.
    pub closed spec fn pages(&self) -> Seq<Seq<u8>> {
        self.pages@
    }

    /// Where each page is.
    pub closed spec fn offsets(&self) -> Seq<u64> {
        self.directory.offsets()
    }

    /// The filter applied to pages.
    pub closed spec fn filter(&self) -> Option<SharedFilter> {
        self.filter
    }

    /// Where the page area starts.
    pub closed spec fn base(&self) -> int {
        self.base@
    }

    /// Whether writing cannot fail.
    pub closed spec fn dependable(&self) -> bool {
        &&& self.target.dependable()
        &&& self.directory.dependable()
        &&& self.filter matches Some(f) ==> f.inner.dependable()
    }

    /// Whether `n` more pages may be too many, or too long: for the signed 32-bit page count,
    /// for a file, or for the format's page length once they are filtered.
    pub open spec fn crowded(&self, n: int) -> bool {
        ||| self.pages().len() + n > 0x7FFF_FFFF
        ||| self.file().len() + n * 0x8000_0000 > u64::MAX
        ||| swells(self.filter())
    }

    /// Whether page `o` is where the directory says, and ends before what follows it.
    pub open spec fn page_placed(&self, o: int) -> bool {
        let at = self.offsets()[o] as int;
        &&& level::page_sound(self.pages()[o])
        &&& self.base() <= at
        &&& stored_at(self.filter(), self.file(), at, self.pages()[o])
        &&& at + stored_len(self.filter(), self.file(), at, self.pages()[o]) <= (if o + 1
            < self.offsets().len() {
            self.offsets()[o + 1] as int
        } else {
            self.file().len() as int
        })
    }

    /// Whether every page written is where the directory says.
    pub closed spec fn wf(&self) -> bool {
        &&& self.pos == self.file().len()
        &&& self.directory.wf()
        &&& 0 <= self.base() <= self.file().len()
        &&& self.offsets().len() == self.pages().len()
        &&& self.pages().len() <= 0x7FFF_FFFF
        &&& forall|o: int| 0 <= o < self.pages().len() ==> #[trigger] self.page_placed(o)
    }

    /// What a well-formed sink knows of itself.
    pub proof fn lemma_wf(&self)
        requires
            self.wf(),
        ensures
            self.file().len() <= u64::MAX,
            0 <= self.base() <= self.file().len(),
            self.offsets().len() == self.pages().len(),
            self.pages().len() <= 0x7FFF_FFFF,
            forall|o: int| 0 <= o < self.pages().len() ==> #[trigger] self.page_placed(o),
    {
    }

    pub fn new(target: T, filter: Option<SharedFilter>, directory: DirectorySpool<D>) -> (r:
        PageSink<T, D>)
        requires
            target.written().len() == 0,
            directory.wf(),
            directory.offsets().len() == 0,
        ensures
            r.wf(),
            r.file() == Seq::<u8>::empty(),
            r.pages() == Seq::<Seq<u8>>::empty(),
            r.filter() == filter,
            r.base() == 0,
            r.dependable() == (target.dependable() && directory.dependable() && (
            filter matches Some(f) ==> f.inner.dependable())),
    {
        let r = PageSink {
            target,
            pos: 0,
            filter,
            directory,
            pages: Ghost(Seq::empty()),
            base: Ghost(0),
        };
        proof {
            assert(r.file() =~= Seq::<u8>::empty());
        }
        r
    }

    /// The target, with what was written to it.
    pub fn into_target(self) -> (r: T)
        ensures
            r.written() == self.file(),
            self.dependable() ==> r.dependable(),
    {
        self.target
    }

    /// Current write position.
    pub fn pos(&self) -> (r: u64)
        requires
            self.wf(),
        ensures
            r == self.file().len(),
    {
        self.pos
    }

    /// Appends bytes and moves the write position.
    fn append(&mut self, bytes: &[u8]) -> (r: Result<(), Error>)
        requires
            old(self).pos == old(self).file().len(),
        ensures
            final(self).dependable() == old(self).dependable(),
            final(self).filter == old(self).filter,
            match r {
                Ok(_) => {
                    &&& final(self).file() == old(self).file() + bytes@
                    &&& final(self).pos == final(self).file().len()
                    &&& final(self).pages == old(self).pages
                    &&& final(self).directory == old(self).directory
                    &&& final(self).base == old(self).base
                },
                Err(e) => (e.kind() == ErrorKind::Io && !old(self).dependable()) || (e.kind()
                    == ErrorKind::ValueTooLarge && old(self).file().len() + bytes@.len()
                    > u64::MAX),
            },
    {
        let end = match self.pos.checked_add(bytes.len() as u64) {
            Some(end) => end,
            None => return Err(
                Error::new(ErrorKind::ValueTooLarge, "the file is larger than a file can be"),
            ),
        };
        self.target.append(bytes)?;
        self.pos = end;
        Ok(())
    }

    /// Appends raw bytes (header, descriptors).
    pub fn write_raw(&mut self, bytes: &[u8]) -> (r: Result<(), Error>)
        requires
            old(self).wf(),
        ensures
            final(self).dependable() == old(self).dependable(),
            final(self).filter() == old(self).filter(),
            match r {
                Ok(_) => {
                    &&& final(self).wf()
                    &&& final(self).file() == old(self).file() + bytes@
                    &&& final(self).pages() == old(self).pages()
                    &&& final(self).offsets() == old(self).offsets()
                    &&& final(self).base() == old(self).base()
                },
                Err(e) => (e.kind() == ErrorKind::Io && !old(self).dependable()) || (e.kind()
                    == ErrorKind::ValueTooLarge && old(self).file().len() + bytes@.len()
                    > u64::MAX),
            },
    {
        self.append(bytes)?;
        proof {
            let (a, b) = (old(self), &*self);
            assert forall|o: int| 0 <= o < b.pages().len() implies #[trigger] b.page_placed(o) by {
                assert(a.page_placed(o));
                lemma_stored_grows(
                    a.filter(),
                    a.file(),
                    bytes@,
                    a.offsets()[o] as int,
                    a.pages()[o],
                );
            }
        }
        Ok(())
    }

    /// Says that everything from here on is pages.
    pub fn begin_pages(&mut self)
        requires
            old(self).wf(),
            old(self).pages().len() == 0,
        ensures
            final(self).wf(),
            final(self).file() == old(self).file(),
            final(self).pages() == old(self).pages(),
            final(self).offsets() == old(self).offsets(),
            final(self).filter() == old(self).filter(),
            final(self).dependable() == old(self).dependable(),
            final(self).base() == old(self).file().len(),
    {
        self.base = Ghost(self.target.written().len() as int);
    }

    /// Writes one page, applying the configured filter to everything after the
    /// 28-byte prefix and rewriting the stored length accordingly. Returns the ordinal the
    /// page was given and where it starts.
    pub fn write_page(&mut self, page: &[u8]) -> (r: Result<(PageOrdinal, u64), Error>)
        requires
            old(self).wf(),
            PAGE_PREFIX_LEN <= page@.len() <= 0x7FFF_FFFF,
            bytes::i32_at(page@, 0) == page@.len(),
            level::page_sound(page@),
        ensures
            final(self).dependable() == old(self).dependable(),
            final(self).filter() == old(self).filter(),
            match r {
                Ok((ordinal, offset)) => {
                    &&& final(self).wf()
                    &&& ordinal.get() == old(self).pages().len()
                    &&& offset == old(self).file().len()
                    &&& final(self).pages() == old(self).pages().push(page@)
                    &&& final(self).offsets() == old(self).offsets().push(offset)
                    &&& final(self).base() == old(self).base()
                    &&& final(self).file().subrange(0, old(self).file().len() as int) == old(self).file()
                    &&& final(self).file().len() >= old(self).file().len()
                    &&& within(old(self), final(self), 1)
                },
                Err(e) => (e.kind() == ErrorKind::Io && !old(self).dependable()) || (e.kind()
                    == ErrorKind::ValueTooLarge && old(self).crowded(1)),
            },
    {
        let offset = self.pos;
        let ghost before = *self;
        let ordinal = self.directory.push(offset)?;
        let filter = self.filter.clone();
        match filter {
            None => {
                self.append(page)?;
                proof {
                    let at = offset as int;
                    assert(self.file().subrange(at, at + page@.len()) =~= page@);
                    assert(stored_at(None, self.file(), at, page@));
                }
            },
            Some(f) => {
                let mut payload: Vec<u8> = Vec::new();
                f.inner.encode(
                    vstd::slice::slice_subrange(page, PAGE_PREFIX_LEN, page.len()),
                    &mut payload,
                )?;
                if payload.len() > 0x7FFF_FFFF - PAGE_PREFIX_LEN {
                    proof {
                        assert(f.inner.content(payload@) is Some);
                    }
                    return Err(
                        Error::new(
                            ErrorKind::ValueTooLarge,
                            "a filtered page is larger than the format's 32-bit page length",
                        ),
                    );
                }
                // The prefix stays raw so that sibling pointers can still be patched into
                // a page that has already been written.
                let total = PAGE_PREFIX_LEN + payload.len();
                let mut stored: Vec<u8> = Vec::new();
                put_le4(&mut stored, total as u64);
                put_slice(&mut stored, vstd::slice::slice_subrange(page, 4, PAGE_PREFIX_LEN));
                put_slice(&mut stored, payload.as_slice());
                self.append(stored.as_slice())?;
                proof {
                    let at = offset as int;
                    let file = self.file();
                    assert(file.subrange(at, at + total) =~= stored@);
                    assert(file.subrange(at, at + 4) =~= bytes::le4(total as int));
                    bytes::lemma_u32_read_back(file, at, total as int);
                    assert(file.subrange(at + 4, at + PAGE_PREFIX_LEN) =~= page@.subrange(
                        4,
                        PAGE_PREFIX_LEN as int,
                    ));
                    assert(file.subrange(at + PAGE_PREFIX_LEN, at + total) =~= payload@);
                    assert(stored_at(Some(f), file, at, page@));
                }
            },
        }
        self.pages = Ghost(self.pages@.push(page@));
        proof {
            self.directory.lemma_wf();
            assert(self.file().subrange(0, before.file().len() as int) =~= before.file());
            assert forall|o: int| 0 <= o < self.pages().len() implies #[trigger] self.page_placed(
                o,
            ) by {
                if o < before.pages().len() {
                    assert(before.page_placed(o));
                    let at = before.offsets()[o] as int;
                    lemma_stored_prefix(
                        before.filter(),
                        before.file(),
                        self.file(),
                        at,
                        before.pages()[o],
                    );
                }
            }
        }
        Ok((ordinal, offset))
    }

    /// Overwrites bytes before the page area.
    pub fn patch_at(&mut self, offset: u64, bytes: &[u8]) -> (r: Result<(), Error>)
        requires
            old(self).wf(),
            offset + bytes@.len() <= old(self).base(),
        ensures
            final(self).dependable() == old(self).dependable(),
            final(self).filter() == old(self).filter(),
            match r {
                Ok(_) => {
                    &&& final(self).wf()
                    &&& final(self).file() == target::spliced(
                        old(self).file(),
                        offset as int,
                        bytes@,
                    )
                    &&& final(self).pages() == old(self).pages()
                    &&& final(self).offsets() == old(self).offsets()
                    &&& final(self).base() == old(self).base()
                },
                Err(e) => e.kind() == ErrorKind::Io && !old(self).dependable(),
            },
    {
        self.target.patch(offset, bytes)?;
        proof {
            let (a, b) = (old(self), &*self);
            assert forall|o: int| 0 <= o < b.pages().len() implies #[trigger] b.page_placed(o) by {
                assert(a.page_placed(o));
                let at = a.offsets()[o] as int;
                lemma_stored_apart(a.filter(), a.file(), b.file(), at, a.pages()[o]);
            }
        }
        Ok(())
    }

    /// Patches the right sibling of a page that has already been written.
    pub fn patch_right_sibling(
        &mut self,
        ordinal: PageOrdinal,
        offset: u64,
        right: PageOrdinal,
    ) -> (r: Result<(), Error>)
        requires
            old(self).wf(),
            ordinal.get() < old(self).pages().len(),
            old(self).offsets()[ordinal.get() as int] == offset,
            level::page_sound(
                target::spliced(
                    old(self).pages()[ordinal.get() as int],
                    RIGHT_SIBLING_OFFSET as int,
                    bytes::le8(bytes::as_signed(right.get() as int)),
                ),
            ),
        ensures
            final(self).dependable() == old(self).dependable(),
            final(self).filter() == old(self).filter(),
            match r {
                Ok(_) => {
                    let page = old(self).pages()[ordinal.get() as int];
                    &&& final(self).wf()
                    &&& final(self).pages() == old(self).pages().update(
                        ordinal.get() as int,
                        target::spliced(
                            page,
                            RIGHT_SIBLING_OFFSET as int,
                            bytes::le8(bytes::as_signed(right.get() as int)),
                        ),
                    )
                    &&& final(self).offsets() == old(self).offsets()
                    &&& final(self).base() == old(self).base()
                    &&& final(self).file().len() == old(self).file().len()
                    &&& final(self).file().subrange(0, old(self).base()) == old(self).file().subrange(0, old(self).base())
                },
                Err(e) => e.kind() == ErrorKind::Io && !old(self).dependable(),
            },
    {
        let ghost o = ordinal.get() as int;
        proof {
            assert(self.page_placed(o));
        }
        let mut patch: Vec<u8> = Vec::new();
        put_le8(&mut patch, right.get());
        proof {
            if right.get() >= 0x8000_0000_0000_0000 {
                bytes::lemma_le8_wraps(bytes::as_signed(right.get() as int));
            }
            assert(patch@ =~= bytes::le8(bytes::as_signed(right.get() as int)));
        }
        self.target.patch(offset + RIGHT_SIBLING_OFFSET as u64, patch.as_slice())?;
        let ghost page = self.pages@[o];
        let ghost patched = target::spliced(page, RIGHT_SIBLING_OFFSET as int, patch@);
        self.pages = Ghost(self.pages@.update(o, patched));
        proof {
            let (a, b) = (old(self), &*self);
            let at = offset as int;
            lemma_stored_patch(a.filter(), a.file(), b.file(), at, page, patched, patch@);
            assert(b.file().len() == a.file().len());
            assert(b.file().subrange(0, a.base()) =~= a.file().subrange(0, a.base()));
            assert forall|q: int| 0 <= q < b.pages().len() implies #[trigger] b.page_placed(q) by {
                assert(a.page_placed(q));
                let here = a.offsets()[q] as int;
                if q == o {
                } else {
                    if q < o {
                        lemma_pages_ascend(a, q, o);
                    } else {
                        lemma_pages_ascend(a, o, q);
                    }
                    lemma_stored_apart(a.filter(), a.file(), b.file(), here, a.pages()[q]);
                }
            }
        }
        Ok(())
    }

    /// Flushes buffered writes.
    pub fn flush(&mut self) -> (r: Result<(), Error>)
        requires
            old(self).wf(),
        ensures
            final(self).dependable() == old(self).dependable(),
            final(self).filter() == old(self).filter(),
            match r {
                Ok(_) => {
                    &&& final(self).wf()
                    &&& final(self).file() == old(self).file()
                    &&& final(self).pages() == old(self).pages()
                    &&& final(self).offsets() == old(self).offsets()
                    &&& final(self).base() == old(self).base()
                },
                Err(e) => e.kind() == ErrorKind::Io && !old(self).dependable(),
            },
    {
        self.target.flush()?;
        proof {
            let (a, b) = (old(self), &*self);
            assert forall|o: int| 0 <= o < b.pages().len() implies #[trigger] b.page_placed(o) by {
                assert(a.page_placed(o));
            }
        }
        Ok(())
    }

    /// Writes the page directory section and returns its offset and page count.
    pub fn finish_directory(&mut self) -> (r: Result<(u64, u64), Error>)
        requires
            old(self).wf(),
        ensures
            final(self).dependable() == old(self).dependable(),
            final(self).filter() == old(self).filter(),
            match r {
                Ok((position, count)) => {
                    &&& final(self).wf()
                    &&& position == old(self).file().len()
                    &&& count == old(self).pages().len()
                    &&& final(self).file() == old(self).file() + directory_bytes(
                        old(self).offsets(),
                    )
                    &&& final(self).pages() == old(self).pages()
                    &&& final(self).offsets() == old(self).offsets()
                    &&& final(self).base() == old(self).base()
                },
                Err(e) => (e.kind() == ErrorKind::Io && !old(self).dependable()) || (e.kind()
                    == ErrorKind::ValueTooLarge && old(self).file().len() + 8
                    * old(self).pages().len() > u64::MAX),
            },
    {
        let position = self.pos;
        let count = self.directory.count();
        proof {
            lemma_directory_slot(self.offsets(), 0);
            self.directory.lemma_wf();
        }
        let end = match position.checked_add(DIRECTORY_SLOT_LEN as u64 * count) {
            Some(end) => end,
            None => return Err(
                Error::new(ErrorKind::ValueTooLarge, "the file is larger than a file can be"),
            ),
        };
        self.directory.write_into(&mut self.target)?;
        self.pos = end;
        proof {
            let (a, b) = (old(self), &*self);
            assert forall|o: int| 0 <= o < b.pages().len() implies #[trigger] b.page_placed(o) by {
                assert(a.page_placed(o));
                lemma_stored_grows(
                    a.filter(),
                    a.file(),
                    directory_bytes(a.offsets()),
                    a.offsets()[o] as int,
                    a.pages()[o],
                );
            }
        }
        Ok((position, count))
    }
}

/// The page directory: one 64-bit offset per page.
pub open spec fn directory_bytes(offsets: Seq<u64>) -> Seq<u8>
    decreases offsets.len(),
{
    if offsets.len() == 0 {
        Seq::empty()
    } else {
        directory_bytes(offsets.drop_last()) + bytes::le8(offsets.last() as int)
    }
}

/// Where the slots of the page directory are.
pub proof fn lemma_directory_slot(offsets: Seq<u64>, i: int)
    ensures
        directory_bytes(offsets).len() == DIRECTORY_SLOT_LEN * offsets.len(),
        0 <= i < offsets.len() ==> directory_bytes(offsets).subrange(
            DIRECTORY_SLOT_LEN * i,
            DIRECTORY_SLOT_LEN * i + DIRECTORY_SLOT_LEN,
        ) == bytes::le8(offsets[i] as int),
    decreases offsets.len(),
{
    if offsets.len() > 0 {
        lemma_directory_slot(offsets.drop_last(), i);
        let all = directory_bytes(offsets);
        let front = directory_bytes(offsets.drop_last());
        if 0 <= i < offsets.len() - 1 {
            assert(all.subrange(8 * i, 8 * i + 8) =~= front.subrange(8 * i, 8 * i + 8));
        } else if i == offsets.len() - 1 {
            assert(all.subrange(8 * i, 8 * i + 8) =~= bytes::le8(offsets[i] as int));
        }
    }
}

/// A number read from the part of a file that did not change.
proof fn lemma_same_i32(a: Seq<u8>, b: Seq<u8>, at: int)
    requires
        0 <= at,
        at + 4 <= a.len(),
        at + 4 <= b.len(),
        a.subrange(at, at + 4) == b.subrange(at, at + 4),
    ensures
        bytes::i32_at(a, at) == bytes::i32_at(b, at),
{
    bytes::lemma_u32_moved(a, at, b, at);
}

/// Pages stay where they are when the file grows.
proof fn lemma_stored_grows(
    filter: Option<SharedFilter>,
    file: Seq<u8>,
    more: Seq<u8>,
    at: int,
    page: Seq<u8>,
)
    requires
        stored_at(filter, file, at, page),
    ensures
        stored_at(filter, file + more, at, page),
        stored_len(filter, file + more, at, page) == stored_len(filter, file, at, page),
{
    assert((file + more).subrange(0, file.len() as int) =~= file);
    lemma_stored_prefix(filter, file, file + more, at, page);
}

/// Pages stay where they are when the file grows.
pub proof fn lemma_stored_prefix(
    filter: Option<SharedFilter>,
    file: Seq<u8>,
    longer: Seq<u8>,
    at: int,
    page: Seq<u8>,
)
    requires
        stored_at(filter, file, at, page),
        longer.len() >= file.len(),
        longer.subrange(0, file.len() as int) == file,
    ensures
        stored_at(filter, longer, at, page),
        stored_len(filter, longer, at, page) == stored_len(filter, file, at, page),
{
    assert forall|i: int| 0 <= i < file.len() implies #[trigger] longer[i] == file[i] by {
        assert(longer.subrange(0, file.len() as int)[i] == file[i]);
    }
    lemma_stored_apart(filter, file, longer, at, page);
}

/// Pages are the same where the file is the same.
pub proof fn lemma_stored_apart(
    filter: Option<SharedFilter>,
    a: Seq<u8>,
    b: Seq<u8>,
    at: int,
    page: Seq<u8>,
)
    requires
        stored_at(filter, a, at, page),
        b.len() >= a.len(),
        forall|i: int|
            at <= i < at + stored_len(filter, a, at, page) ==> #[trigger] b[i] == a[i],
    ensures
        stored_at(filter, b, at, page),
        stored_len(filter, b, at, page) == stored_len(filter, a, at, page),
{
    let len = stored_len(filter, a, at, page);
    assert(a.subrange(at, at + 4) =~= b.subrange(at, at + 4));
    lemma_same_i32(a, b, at);
    assert(a.subrange(at, at + len) =~= b.subrange(at, at + len));
    assert(a.subrange(at + 4, at + PAGE_PREFIX_LEN) =~= b.subrange(at + 4, at + PAGE_PREFIX_LEN));
    assert(a.subrange(at + PAGE_PREFIX_LEN, at + len) =~= b.subrange(
        at + PAGE_PREFIX_LEN,
        at + len,
    ));
}

/// Patching the raw prefix of a stored page patches the page.
proof fn lemma_stored_patch(
    filter: Option<SharedFilter>,
    a: Seq<u8>,
    b: Seq<u8>,
    at: int,
    page: Seq<u8>,
    patched: Seq<u8>,
    patch: Seq<u8>,
)
    requires
        stored_at(filter, a, at, page),
        patch.len() == 8,
        b == target::spliced(a, at + RIGHT_SIBLING_OFFSET, patch),
        patched == target::spliced(page, RIGHT_SIBLING_OFFSET as int, patch),
    ensures
        stored_at(filter, b, at, patched),
        stored_len(filter, b, at, patched) == stored_len(filter, a, at, page),
        b.len() == a.len(),
        forall|i: int|
            0 <= i < a.len() && !(at <= i < at + PAGE_PREFIX_LEN) ==> #[trigger] b[i] == a[i],
{
    let len = stored_len(filter, a, at, page);
    assert(a.subrange(at, at + 4) =~= b.subrange(at, at + 4));
    lemma_same_i32(a, b, at);
    assert(page.subrange(0, 4) =~= patched.subrange(0, 4));
    lemma_same_i32(page, patched, 0);
    match filter {
        None => {
            assert(b.subrange(at, at + len) =~= patched) by {
                let w = a.subrange(at, at + len);
                assert forall|i: int| 0 <= i < len implies b.subrange(at, at + len)[i]
                    == patched[i] by {
                    assert(w[i] == a[at + i]);
                }
            }
        },
        Some(f) => {
            let w = a.subrange(at + 4, at + PAGE_PREFIX_LEN);
            let v = page.subrange(4, PAGE_PREFIX_LEN as int);
            assert(b.subrange(at + 4, at + PAGE_PREFIX_LEN) =~= patched.subrange(
                4,
                PAGE_PREFIX_LEN as int,
            )) by {
                assert forall|i: int| 0 <= i < PAGE_PREFIX_LEN - 4 implies #[trigger] b.subrange(
                    at + 4,
                    at + PAGE_PREFIX_LEN,
                )[i] == patched.subrange(4, PAGE_PREFIX_LEN as int)[i] by {
                    assert(w[i] == v[i]);
                }
            }
            assert(b.subrange(at + PAGE_PREFIX_LEN, at + len) =~= a.subrange(
                at + PAGE_PREFIX_LEN,
                at + len,
            ));
            assert(patched.subrange(PAGE_PREFIX_LEN as int, patched.len() as int)
                =~= page.subrange(PAGE_PREFIX_LEN as int, page.len() as int));
        },
    }
}

/// Pages stand in the order of their ordinals.
proof fn lemma_pages_ascend<T: BuildTarget, D: Scratch>(sink: &PageSink<T, D>, a: int, b: int)
    requires
        sink.wf(),
        0 <= a < b < sink.pages().len(),
    ensures
        sink.offsets()[a] + stored_len(
            sink.filter(),
            sink.file(),
            sink.offsets()[a] as int,
            sink.pages()[a],
        ) <= sink.offsets()[b],
        sink.offsets()[a] + PAGE_PREFIX_LEN <= sink.offsets()[b],
    decreases b - a,
{
    assert(sink.page_placed(a));
    if a + 1 < b {
        assert(sink.page_placed(a + 1));
        lemma_pages_ascend(sink, a + 1, b);
    }
}

} // verus!

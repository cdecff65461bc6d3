//! `PageRef`: the 16-byte pointer a secondary index stores in place of the value.
//!
//! ```text
//! 0  8  page ordinal (i64)
//! 8  4  start offset inside that page (i32)
//! 12 4  length in bytes (i32)
//! ```

use vstd::prelude::*;

use super::bytes::{put_le4, put_le8, read_i32, read_i64};
use super::{PageLocalOffset, PageOrdinal, PAGE_PREFIX_LEN};
use crate::error::{Error, Words};

verus! {

broadcast use super::group_format;

/// Encoded size of a `PageRef`.
pub const PAGE_REF_LEN: usize = 16;

/// A pointer to a byte range inside another page.
#[derive(Debug, Clone, Copy, PartialEq, Eq, Structural)]
pub struct PageRef {
    /// Page holding the bytes.
    pub page: PageOrdinal,
    /// Offset of the first byte inside that page.
    pub start: PageLocalOffset,
    /// Number of bytes.
    pub length: u32,
}

/// The reference that `s` starts with, if it is one.
pub open spec fn page_ref_at(s: Seq<u8>) -> Option<PageRef> {
    let page = super::ordinal_of(super::bytes::i64_at(s, 0));
    let start = super::bytes::i32_at(s, 8);
    let length = super::bytes::i32_at(s, 12);
    if s.len() >= 16 && page is Some && page->Some_0 is Some && start >= 0 && length >= 0 {
        Some(
            PageRef {
                page: page->Some_0->Some_0,
                start: PageLocalOffset::spec_new(start as u32),
                length: length as u32,
            },
        )
    } else {
        None
    }
}

impl PageRef {
    /// The bytes that store the reference.
    pub open spec fn bytes(self) -> Seq<u8> {
        super::bytes::le8(self.page.get() as int) + super::bytes::le4(self.start.get() as int)
            + super::bytes::le4(self.length as int)
    }

    /// What the format can store: ordinals, offsets and lengths are signed on disk.
    pub open spec fn storable(self) -> bool {
        &&& self.page.get() < 0x8000_0000_0000_0000
        &&& self.start.get() < 0x8000_0000
        &&& self.length < 0x8000_0000
    }

    /// Decodes a `PageRef` from the first [`PAGE_REF_LEN`] bytes.
    pub fn parse(buf: &[u8]) -> (r: Result<PageRef, Error>)
        ensures
            match r {
                Ok(p) => page_ref_at(buf@) == Some(p),
                Err(e) => page_ref_at(buf@) is None && e.is_corrupt(),
            },
    {
        if buf.len() < PAGE_REF_LEN {
            return Err(
                Error::corrupt_number(
                    "secondary index value is ",
                    buf.len() as u64,
                    " bytes, expected 16",
                ),
            );
        }
        let ordinal = match PageOrdinal::from_i64(read_i64(buf, 0)?)? {
            Some(ordinal) => ordinal,
            None => return Err(Error::corrupt("secondary index PageRef points at no page")),
        };
        let start = read_i32(buf, 8)?;
        let length = read_i32(buf, 12)?;
        if start < 0 || length < 0 {
            return Err(
                Error::corrupt_words(
                    Words::new("PageRef has negative start/length (")
                        .signed(start as i64)
                        .say(", ")
                        .signed(length as i64)
                        .say(")"),
                ),
            );
        }
        Ok(
            PageRef {
                page: ordinal,
                start: PageLocalOffset::new(start as u32),
                length: length as u32,
            },
        )
    }

    /// Encodes the reference.
    pub fn encode(&self) -> (r: [u8; PAGE_REF_LEN])
        ensures
            r@ == self.bytes(),
    {
        let mut out: Vec<u8> = Vec::new();
        put_le8(&mut out, self.page.get());
        put_le4(&mut out, self.start.get() as u64);
        put_le4(&mut out, self.length as u64);
        proof {
            assert(out@ =~= self.bytes());
        }
        let r = [out[0], out[1], out[2], out[3], out[4], out[5], out[6], out[7], out[8], out[9], out[10], out[11], out[12], out[13], out[14], out[15]];
        proof {
            assert(r@ =~= out@);
        }
        r
    }

    /// What [`PageRef::parse`] gives back of [`PageRef::encode`]: the reference itself,
    /// whatever follows it.
    pub proof fn lemma_round_trip(self, rest: Seq<u8>)
        requires
            self.storable(),
        ensures
            page_ref_at(self.bytes() + rest) == Some(self),
    {
        let s = self.bytes() + rest;
        assert(s.subrange(0, 8) =~= super::bytes::le8(self.page.get() as int));
        assert(s.subrange(8, 12) =~= super::bytes::le4(self.start.get() as int));
        assert(s.subrange(12, 16) =~= super::bytes::le4(self.length as int));
        super::bytes::lemma_u64_read_back(s, 0, self.page.get() as int);
        super::bytes::lemma_u32_read_back(s, 8, self.start.get() as int);
        super::bytes::lemma_u32_read_back(s, 12, self.length as int);
    }

    /// Whether the reference designates bytes of a page of `page_len` bytes, outside the
    /// page prefix.
    pub open spec fn fits(self, page_len: int) -> bool {
        PAGE_PREFIX_LEN <= self.start.get() && self.start.get() + self.length <= page_len
    }

    /// Byte range the reference designates, checked against `page_len`.
    pub fn range(&self, page_len: usize) -> (r: Result<std::ops::Range<usize>, Error>)
        ensures
            match r {
                Ok(range) => self.fits(page_len as int) && range.start == self.start.get()
                    && range.end == self.start.get() + self.length,
                Err(e) => !self.fits(page_len as int) && e.is_corrupt(),
            },
    {
        let start = self.start.get();
        let end = match start.checked_add(self.length as usize) {
            Some(end) => end,
            None => return Err(Error::corrupt("PageRef range overflows")),
        };
        if end > page_len {
            return Err(
                Error::corrupt_words(
                    Words::new("PageRef range ")
                        .number(start as u64)
                        .say("..")
                        .number(end as u64)
                        .say(" exceeds page length ")
                        .number(page_len as u64),
                )
                    .at_page(self.page.get()),
            );
        }
        // A value never starts inside the page prefix, so a reference that does is
        // pointing at the header rather than at a record, and would hand the header back
        // as if it were the value.
        if start < PAGE_PREFIX_LEN {
            return Err(
                Error::corrupt_number(
                    "PageRef starts at ",
                    start as u64,
                    ", inside the 28 byte page prefix",
                ).at_page(self.page.get()),
            );
        }
        Ok(start..end)
    }
}

} // verus!

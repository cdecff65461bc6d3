//! On-disk format of DryDB storage version 1.4.
//!
//! Everything here decodes with explicit little-endian reads against a length-checked
//! slice. No byte range from the file is ever reinterpreted as a struct, so a hostile file
//! can produce [`ErrorKind::CorruptData`](crate::error::ErrorKind::CorruptData) but not
//! undefined behaviour.

pub mod amend;
pub mod bytes;
pub mod catalog;
pub mod extend;
pub mod eytzinger;
pub mod header;
pub mod laws;
pub mod node;
pub mod pageref;

use vstd::prelude::*;

use crate::error::{Error, Words};

verus! {

/// File magic: `DRY\0`.
pub const MAGIC: [u8; 4] = [68, 82, 89, 0];
/// Supported major version.
pub const MAJOR_VERSION: u8 = 1;
/// Supported minor version.
pub const MINOR_VERSION: u8 = 4;
/// Size of the file header in bytes.
pub const HEADER_LEN: usize = 26;
/// Byte offset of the back-patched `page_count` field inside the header.
pub const PAGE_COUNT_FIELD_OFFSET: u64 = 14;

/// Per-page prefix holding the stored page length (`int32`).
pub const PAGE_LENGTH_LEN: usize = 4;
/// Per-page node header following the page length.
pub const NODE_HEADER_LEN: usize = 24;
/// Bytes every page starts with: page length plus node header.
///
/// Page filters leave this prefix uncompressed, which is what lets the builder
/// back-patch sibling pointers after a page has been written.
pub const PAGE_PREFIX_LEN: usize = 28;

/// Offset of the right-sibling ordinal inside a page.
pub const RIGHT_SIBLING_OFFSET: usize = 20;
/// Offset of the left-sibling ordinal inside a page.
pub const LEFT_SIBLING_OFFSET: usize = 12;
/// Offset of the entry count inside a page.
pub const ENTRY_COUNT_OFFSET: usize = 8;
/// Offset of the node kind/flags word inside a page.
pub const KIND_OFFSET: usize = 4;
/// Offset at which a page's entry payload area can start at the earliest.
pub const DIGEST_BASE: usize = 28;

/// Encoded width of a page directory slot.
pub const DIRECTORY_SLOT_LEN: usize = 8;

/// Largest page size for which the builder emits the compact metadata layout.
///
/// Compact offsets are 15 bit wide (bit 15 flags an overflow entry) and the closing
/// sentinel offset may equal the page length, so both must fit in 15 bits.
pub const MAX_COMPACT_PAGE_SIZE: usize = 0x7FFF;

/// Inline value length that means "the payload is an 8-byte blob page ordinal".
pub const OVERFLOW_SENTINEL: u16 = 0xFFFF;
/// Bit 15 of a compact leaf offset: the entry's value lives on a blob page.
pub const COMPACT_OVERFLOW_BIT: u16 = 0x8000;
/// Mask for the offset part of a compact leaf offset slot.
pub const COMPACT_OFFSET_MASK: u16 = 0x7FFF;

/// Dense page ordinal, assigned in flush order while building.
///
/// Every on-disk page pointer (roots, siblings, children, blob refs, secondary index
/// `PageRef`s) stores one of these; the page directory maps it to a byte offset.
/// `-1` on disk means "no page" and decodes to `None`.
#[derive(Debug, Clone, Copy, PartialEq, Eq, PartialOrd, Ord, Hash, Structural)]
pub struct PageOrdinal(u64);

/// The page a stored signed number points at: none for `-1`, and nothing at all for other
/// negative numbers.
pub open spec fn ordinal_of(v: int) -> Option<Option<PageOrdinal>> {
    if v == -1 {
        Some(None)
    } else if 0 <= v < 0x8000_0000_0000_0000 {
        Some(Some(PageOrdinal::spec_new(v as u64)))
    } else {
        None
    }
}

impl PageOrdinal {
    pub closed spec fn spec_new(value: u64) -> Self {
        PageOrdinal(value)
    }

    pub closed spec fn spec_get(self) -> u64 {
        self.0
    }

    /// An ordinal is the number it wraps, and nothing else.
    pub broadcast proof fn lemma_new_get(value: u64)
        ensures
            (#[trigger] PageOrdinal::spec_new(value)).get() == value,
    {
    }

    /// An ordinal is the number it wraps, and nothing else.
    pub broadcast proof fn lemma_get_new(self)
        ensures
            PageOrdinal::spec_new(#[trigger] self.spec_get()) == self,
    {
    }

    /// Wraps a validated ordinal.
    #[verifier::when_used_as_spec(spec_new)]
    pub fn new(value: u64) -> (r: Self)
        ensures
            r == PageOrdinal::spec_new(value),
            r.get() == value,
    {
        PageOrdinal(value)
    }

    /// The ordinal as a `u64`.
    #[verifier::when_used_as_spec(spec_get)]
    pub fn get(self) -> (r: u64)
        ensures
            r == self.spec_get(),
            PageOrdinal::spec_new(r) == self,
    {
        self.0
    }

    /// Decodes the on-disk signed representation. `-1` is the empty sentinel.
    pub fn from_i64(value: i64) -> (r: Result<Option<Self>, Error>)
        ensures
            match r {
                Ok(o) => ordinal_of(value as int) == Some(o),
                Err(e) => ordinal_of(value as int) is None && e.is_corrupt(),
            },
    {
        if value == -1 {
            Ok(None)
        } else if value >= 0 {
            Ok(Some(PageOrdinal(value as u64)))
        } else {
            Err(Error::corrupt_words(Words::new("negative page ordinal ").signed(value)))
        }
    }

    /// The signed number that stands for `this` on disk.
    pub open spec fn signed(this: Option<Self>) -> int {
        match this {
            None => -1,
            Some(p) => bytes::as_signed(p.get() as int),
        }
    }

    /// The on-disk signed representation.
    pub fn to_i64(this: Option<Self>) -> (r: i64)
        ensures
            r == PageOrdinal::signed(this),
    {
        match this {
            None => -1,
            Some(p) => bytes::to_signed(p.0),
        }
    }
}

/// Byte offset inside the database file.
#[derive(Debug, Clone, Copy, PartialEq, Eq, PartialOrd, Ord, Hash, Structural)]
pub struct FileOffset(u64);

impl FileOffset {
    pub closed spec fn spec_new(value: u64) -> Self {
        FileOffset(value)
    }

    pub closed spec fn spec_get(self) -> u64 {
        self.0
    }

    /// An offset is the number it wraps, and nothing else.
    pub broadcast proof fn lemma_new_get(value: u64)
        ensures
            (#[trigger] FileOffset::spec_new(value)).get() == value,
    {
    }

    /// An offset is the number it wraps, and nothing else.
    pub broadcast proof fn lemma_get_new(self)
        ensures
            FileOffset::spec_new(#[trigger] self.spec_get()) == self,
    {
    }

    /// Wraps a validated offset.
    #[verifier::when_used_as_spec(spec_new)]
    pub fn new(value: u64) -> (r: Self)
        ensures
            r == FileOffset::spec_new(value),
            r.get() == value,
    {
        FileOffset(value)
    }

    /// The offset as a `u64`.
    #[verifier::when_used_as_spec(spec_get)]
    pub fn get(self) -> (r: u64)
        ensures
            r == self.spec_get(),
            FileOffset::spec_new(r) == self,
    {
        self.0
    }

    /// Decodes the on-disk signed representation, rejecting negatives.
    pub fn from_i64(value: i64) -> (r: Result<Self, Error>)
        ensures
            match r {
                Ok(o) => value >= 0 && o == FileOffset::spec_new(value as u64),
                Err(e) => value < 0 && e.is_corrupt(),
            },
    {
        if value < 0 {
            return Err(Error::corrupt_words(Words::new("negative file offset ").signed(value)));
        }
        Ok(FileOffset(value as u64))
    }
}

/// Byte offset inside a single page.
#[derive(Debug, Clone, Copy, PartialEq, Eq, PartialOrd, Ord, Hash, Structural)]
pub struct PageLocalOffset(u32);

impl PageLocalOffset {
    pub closed spec fn spec_new(value: u32) -> Self {
        PageLocalOffset(value)
    }

    pub closed spec fn spec_get(self) -> usize {
        self.0 as usize
    }

    /// A page-local offset is the number it wraps, and nothing else.
    pub broadcast proof fn lemma_new_get(value: u32)
        ensures
            (#[trigger] PageLocalOffset::spec_new(value)).get() == value,
    {
    }

    /// A page-local offset is the number it wraps, and nothing else.
    pub broadcast proof fn lemma_get_new(self)
        ensures
            PageLocalOffset::spec_new(#[trigger] self.spec_get() as u32) == self,
            self.spec_get() <= 0xFFFF_FFFF,
    {
    }

    /// Wraps a validated page-local offset.
    #[verifier::when_used_as_spec(spec_new)]
    pub fn new(value: u32) -> (r: Self)
        ensures
            r == PageLocalOffset::spec_new(value),
            r.get() == value,
    {
        PageLocalOffset(value)
    }

    /// The offset as a `usize`.
    #[verifier::when_used_as_spec(spec_get)]
    pub fn get(self) -> (r: usize)
        ensures
            r == self.spec_get(),
            r <= 0xFFFF_FFFF,
            PageLocalOffset::spec_new(r as u32) == self,
    {
        self.0 as usize
    }
}

pub broadcast group group_format {
    bytes::group_bytes,
    PageOrdinal::lemma_new_get,
    PageOrdinal::lemma_get_new,
    FileOffset::lemma_new_get,
    FileOffset::lemma_get_new,
    PageLocalOffset::lemma_new_get,
    PageLocalOffset::lemma_get_new,
}

} // verus!

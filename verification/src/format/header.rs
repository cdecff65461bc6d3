//! The 26-byte file header.
//!
//! ```text
//! 0  4  magic "DRY\0"
//! 4  1  major version (1)
//! 5  1  minor version (4)
//! 6  2  page filter count (u16)
//! 8  4  page size (i32)
//! 12 2  table count (u16)
//! 14 4  page count (i32, back-patched)
//! 18 8  page directory position (i64, back-patched)
//! ```

use vstd::prelude::*;

use super::bytes::{
    checked_len, put_le2, put_le4, put_le8, read_i32, read_i64, read_slice, read_u16, read_u8,
    same_bytes,
};
use super::{
    FileOffset, DIRECTORY_SLOT_LEN, HEADER_LEN, MAGIC, MAJOR_VERSION, MINOR_VERSION,
    PAGE_PREFIX_LEN,
};
use crate::error::{Error, ErrorKind, Words};

verus! {

broadcast use super::group_format;

/// Decoded file header.
#[derive(Debug, Clone, Copy, PartialEq, Eq, Structural)]
pub struct Header {
    /// Major format version. Always [`MAJOR_VERSION`] once validated.
    pub major_version: u8,
    /// Minor format version. Always [`MINOR_VERSION`] once validated.
    pub minor_version: u8,
    /// Number of page filter ids that follow the header.
    pub page_filter_count: u16,
    /// Page size the file was built with. Advisory: real pages carry their own length.
    pub page_size: usize,
    /// Number of table descriptors.
    pub table_count: u16,
    /// Number of pages, i.e. the number of page directory slots.
    pub page_count: u64,
    /// File offset of the page directory section.
    pub page_directory_position: FileOffset,
}

/// What the first 26 bytes of a file say.
pub enum HeaderParse {
    /// A header of this format.
    Valid(Header),
    /// Not a file of this format at all.
    Unsupported,
    /// The right format, with a field that cannot be.
    Corrupt,
}

/// Whether `s` starts with the magic and holds a header of the supported version.
pub open spec fn supported(s: Seq<u8>) -> bool {
    &&& s.len() >= HEADER_LEN
    &&& s.subrange(0, 4) == MAGIC@
    &&& s[4] == MAJOR_VERSION
    &&& s[5] == MINOR_VERSION
}

/// Whether the scalars of a supported header make sense.
pub open spec fn sane(s: Seq<u8>) -> bool {
    &&& super::bytes::i32_at(s, 8) >= PAGE_PREFIX_LEN
    &&& super::bytes::i32_at(s, 14) >= 0
    &&& super::bytes::i64_at(s, 18) > 0
}

/// The header that `s` starts with.
pub open spec fn header_at(s: Seq<u8>) -> HeaderParse {
    if !supported(s) {
        HeaderParse::Unsupported
    } else if !sane(s) {
        HeaderParse::Corrupt
    } else {
        HeaderParse::Valid(
            Header {
                major_version: s[4],
                minor_version: s[5],
                page_filter_count: super::bytes::u16_at(s, 6) as u16,
                page_size: super::bytes::i32_at(s, 8) as usize,
                table_count: super::bytes::u16_at(s, 12) as u16,
                page_count: super::bytes::i32_at(s, 14) as u64,
                page_directory_position: FileOffset::spec_new(
                    super::bytes::i64_at(s, 18) as u64,
                ),
            },
        )
    }
}

impl Header {
    /// The bytes that store the header.
    pub open spec fn bytes(self) -> Seq<u8> {
        MAGIC@ + seq![self.major_version, self.minor_version] + super::bytes::le2(
            self.page_filter_count as int,
        ) + super::bytes::le4(self.page_size as int) + super::bytes::le2(self.table_count as int)
            + super::bytes::le4(self.page_count as int) + super::bytes::le8(
            self.page_directory_position.get() as int,
        )
    }

    /// A header that a reader of this version accepts.
    pub open spec fn valid(self) -> bool {
        &&& self.major_version == MAJOR_VERSION
        &&& self.minor_version == MINOR_VERSION
        &&& PAGE_PREFIX_LEN <= self.page_size < 0x8000_0000
        &&& self.page_count < 0x8000_0000
        &&& 0 < self.page_directory_position.get() < 0x8000_0000_0000_0000
    }

    /// Parses and validates the header prefix of `buf`.
    pub fn parse(buf: &[u8]) -> (r: Result<Header, Error>)
        ensures
            match header_at(buf@) {
                HeaderParse::Valid(h) => r == Ok::<Header, Error>(h),
                HeaderParse::Unsupported => r is Err && r->Err_0.kind()
                    == ErrorKind::UnsupportedFormat,
                HeaderParse::Corrupt => r is Err && r->Err_0.is_corrupt(),
            },
    {
        let magic = match read_slice(buf, 0, 4) {
            Ok(magic) => magic,
            Err(_) => return Err(
                Error::new(
                    ErrorKind::UnsupportedFormat,
                    "file shorter than the 26-byte header",
                ),
            ),
        };
        let expected = MAGIC;
        if !same_bytes(magic, &expected) {
            return Err(
                Error::from_text(
                    ErrorKind::UnsupportedFormat,
                    Words::new("bad magic [")
                        .byte(magic[0])
                        .say(", ")
                        .byte(magic[1])
                        .say(", ")
                        .byte(magic[2])
                        .say(", ")
                        .byte(magic[3])
                        .say("], expected \"DRY\\0\"")
                        .end(),
                ),
            );
        }
        if buf.len() < HEADER_LEN {
            return Err(
                Error::new(
                    ErrorKind::UnsupportedFormat,
                    "file shorter than the 26-byte header",
                ),
            );
        }
        let major_version = read_u8(buf, 4)?;
        let minor_version = read_u8(buf, 5)?;
        if major_version != MAJOR_VERSION || minor_version != MINOR_VERSION {
            return Err(
                Error::from_text(
                    ErrorKind::UnsupportedFormat,
                    Words::new("storage format ")
                        .number(major_version as u64)
                        .say(".")
                        .number(minor_version as u64)
                        .say(" is not supported; this build reads 1.4 only")
                        .end(),
                ),
            );
        }
        let page_filter_count = read_u16(buf, 6)?;
        let page_size = checked_len(read_i32(buf, 8)?, "negative page size")?;
        if page_size < PAGE_PREFIX_LEN {
            return Err(
                Error::corrupt_number(
                    "page size ",
                    page_size as u64,
                    " is smaller than the 28 byte page prefix",
                ),
            );
        }
        let table_count = read_u16(buf, 12)?;
        let page_count = checked_len(read_i32(buf, 14)?, "negative page count")? as u64;
        let position = read_i64(buf, 18)?;
        if position <= 0 {
            return Err(
                Error::corrupt_words(
                    Words::new("page directory position ")
                        .signed(position)
                        .say(" is not a valid file offset"),
                ),
            );
        }
        let page_directory_position = FileOffset::from_i64(position)?;
        Ok(
            Header {
                major_version,
                minor_version,
                page_filter_count,
                page_size,
                table_count,
                page_count,
                page_directory_position,
            },
        )
    }

    /// Encodes the header, with `page_count` and `page_directory_position` as written
    /// before the back-patch.
    pub fn encode(&self) -> (r: [u8; HEADER_LEN])
        ensures
            r@ == self.bytes(),
    {
        let magic = MAGIC;
        let mut out: Vec<u8> = Vec::new();
        out.push(magic[0]);
        out.push(magic[1]);
        out.push(magic[2]);
        out.push(magic[3]);
        out.push(self.major_version);
        out.push(self.minor_version);
        put_le2(&mut out, self.page_filter_count as u64);
        put_le4(&mut out, self.page_size as u64);
        put_le2(&mut out, self.table_count as u64);
        put_le4(&mut out, self.page_count);
        put_le8(&mut out, self.page_directory_position.get());
        proof {
            assert(out@ =~= self.bytes());
        }
        let r = [
            out[0], out[1], out[2], out[3], out[4], out[5], out[6], out[7], out[8], out[9], out[10],
            out[11], out[12], out[13], out[14], out[15], out[16], out[17], out[18], out[19],
            out[20], out[21], out[22], out[23], out[24], out[25],
        ];
        proof {
            assert(r@ =~= out@);
        }
        r
    }

    /// What [`Header::parse`] gives back of [`Header::encode`]: the header itself,
    /// whatever follows it in the file.
    pub proof fn lemma_round_trip(self, rest: Seq<u8>)
        requires
            self.valid(),
        ensures
            header_at(self.bytes() + rest) == HeaderParse::Valid(self),
    {
        let s = self.bytes() + rest;
        assert(s.subrange(0, 4) =~= MAGIC@);
        assert(s.subrange(6, 8) =~= super::bytes::le2(self.page_filter_count as int));
        assert(s.subrange(8, 12) =~= super::bytes::le4(self.page_size as int));
        assert(s.subrange(12, 14) =~= super::bytes::le2(self.table_count as int));
        assert(s.subrange(14, 18) =~= super::bytes::le4(self.page_count as int));
        assert(s.subrange(18, 26) =~= super::bytes::le8(
            self.page_directory_position.get() as int,
        ));
        super::bytes::lemma_u16_read_back(s, 6, self.page_filter_count as int);
        super::bytes::lemma_u32_read_back(s, 8, self.page_size as int);
        super::bytes::lemma_u16_read_back(s, 12, self.table_count as int);
        super::bytes::lemma_u32_read_back(s, 14, self.page_count as int);
        super::bytes::lemma_u64_read_back(s, 18, self.page_directory_position.get() as int);
    }

    /// Byte span of the page directory section, checked for overflow.
    pub fn directory_span(&self) -> (r: Result<(u64, u64), Error>)
        ensures
            match r {
                Ok((start, end)) => start == self.page_directory_position.get() && end == start
                    + self.page_count * DIRECTORY_SLOT_LEN,
                Err(e) => e.is_corrupt() && self.page_directory_position.get() + self.page_count
                    * DIRECTORY_SLOT_LEN > u64::MAX,
            },
    {
        let start = self.page_directory_position.get();
        let len = match self.page_count.checked_mul(DIRECTORY_SLOT_LEN as u64) {
            Some(len) => len,
            None => return Err(Error::corrupt("page directory size overflows")),
        };
        let end = match start.checked_add(len) {
            Some(end) => end,
            None => return Err(Error::corrupt("page directory end overflows")),
        };
        Ok((start, end))
    }
}

} // verus!

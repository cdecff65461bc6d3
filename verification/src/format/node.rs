//! B+Tree page decoding.
//!
//! A page is `page_length(i32)`, a 24-byte node header, the mandatory digest array,
//! the entry metadata area and finally the entry payloads:
//!
//! ```text
//! 0  4   page_length (i32, counts the whole page including this field)
//! 4  4   kind | flags (i32)
//! 8  4   entry_count (i32)
//! 12 8   left sibling ordinal (i64, -1 = none)
//! 20 8   right sibling ordinal (i64, -1 = none)
//! 28 ..  digest array (u64 per entry, or a padded Eytzinger tree)
//! ..     entry metadata (classic records, or compact u16 offsets)
//! ..     entry payloads (key bytes, value bytes / child ordinals)
//! ```
//!
//! [`PageView::parse`] checks the header and the area bounds; [`PageView::validate`]
//! walks every entry. The page store runs both when a page enters the cache, and each
//! accessor re-checks its own bounds, so a corrupt page can only produce
//! [`ErrorKind::CorruptData`](crate::error::ErrorKind::CorruptData).

use vstd::arithmetic::power2::*;
use vstd::prelude::*;

use super::bytes::{
    self, checked_len, read_i32, read_i64, read_slice, read_u16, read_u32, read_u64,
};
use super::eytzinger::{self, complete_size};
use super::{
    PageOrdinal, COMPACT_OVERFLOW_BIT, DIGEST_BASE, ENTRY_COUNT_OFFSET, KIND_OFFSET,
    LEFT_SIBLING_OFFSET, MAX_COMPACT_PAGE_SIZE, OVERFLOW_SENTINEL, PAGE_PREFIX_LEN,
    RIGHT_SIBLING_OFFSET,
};
use crate::error::{Error, Words};

verus! {

broadcast use super::group_format;

/// Low byte of the kind word.
#[derive(Debug, Clone, Copy, PartialEq, Eq, Structural)]
pub enum NodeKind {
    /// Holds records (or, for a blob page, raw value bytes with `entry_count == 0`).
    Leaf,
    /// Holds separator keys and child ordinals.
    Internal,
}

/// The kind word's flag for digests stored as an Eytzinger tree.
pub const FLAG_EYTZINGER: i32 = 0x200;
/// The kind word's flag for the compact metadata layout.
pub const FLAG_COMPACT_META: i32 = 0x400;
/// The kind word's flag for pages without key bytes.
pub const FLAG_OMITTED_KEYS: i32 = 0x800;

/// Per-page layout flags.
#[derive(Debug, Clone, Copy, PartialEq, Eq, Structural)]
pub struct NodeLayout {
    /// Digests are a `u64::MAX`-padded complete binary tree in BFS order.
    pub eytzinger: bool,
    /// Entry metadata is a `u16` offset array with derived lengths.
    pub compact_meta: bool,
    /// The page stores no key bytes; the exact digest array is the key column.
    pub omitted_keys: bool,
}

impl Default for NodeLayout {
    fn default() -> (r: Self)
        ensures
            r == (NodeLayout { eytzinger: false, compact_meta: false, omitted_keys: false }),
    {
        NodeLayout { eytzinger: false, compact_meta: false, omitted_keys: false }
    }
}

impl NodeLayout {
    /// The flag bits, as a number.
    pub open spec fn flags(self) -> int {
        (if self.eytzinger {
            FLAG_EYTZINGER as int
        } else {
            0
        }) + (if self.compact_meta {
            FLAG_COMPACT_META as int
        } else {
            0
        }) + (if self.omitted_keys {
            FLAG_OMITTED_KEYS as int
        } else {
            0
        })
    }

    /// Slots the digest array occupies for `n` entries.
    pub open spec fn slots(self, n: nat) -> nat {
        if self.eytzinger {
            eytzinger::complete(n)
        } else {
            n
        }
    }

    /// Bytes the digest array occupies for `n` entries.
    pub open spec fn digest_area(self, n: nat) -> nat {
        8 * self.slots(n)
    }

    /// Bytes the leaf metadata area occupies for `n` entries.
    pub open spec fn leaf_meta(self, n: nat) -> nat {
        if !self.compact_meta {
            8 * n
        } else if self.omitted_keys {
            2 * (n + 1)
        } else {
            2 * (n + 1 + n)
        }
    }

    /// Bytes the internal metadata area occupies for `n` entries.
    pub open spec fn internal_meta(self, n: nat) -> nat {
        if !self.compact_meta {
            6 * n
        } else if self.omitted_keys {
            0
        } else {
            2 * (n + 1)
        }
    }

    /// Bytes the metadata area of a node of this kind occupies for `n` entries.
    pub open spec fn meta_area(self, kind: NodeKind, n: nat) -> nat {
        match kind {
            NodeKind::Leaf => self.leaf_meta(n),
            NodeKind::Internal => self.internal_meta(n),
        }
    }

    /// The combinations the format knows.
    pub open spec fn valid(self) -> bool {
        self.omitted_keys ==> self.compact_meta && !self.eytzinger
    }

    /// The flag bits this layout sets in the kind word.
    pub fn flag_bits(self) -> (r: i32)
        ensures
            r == self.flags(),
    {
        (if self.eytzinger {
            FLAG_EYTZINGER
        } else {
            0
        }) + (if self.compact_meta {
            FLAG_COMPACT_META
        } else {
            0
        }) + (if self.omitted_keys {
            FLAG_OMITTED_KEYS
        } else {
            0
        })
    }

    /// Slots the digest array occupies for `entry_count` entries.
    pub fn digest_slots(self, entry_count: usize) -> (r: usize)
        ensures
            r == self.slots(entry_count as nat),
    {
        if self.eytzinger {
            complete_size(entry_count)
        } else {
            entry_count
        }
    }

    /// Bytes the leaf metadata area occupies.
    pub fn leaf_meta_size(self, entry_count: usize) -> (r: Option<usize>)
        ensures
            match r {
                Some(v) => v == self.leaf_meta(entry_count as nat),
                None => self.leaf_meta(entry_count as nat) > usize::MAX,
            },
    {
        if self.compact_meta {
            let slots = entry_count.checked_add(1)?.checked_add(
                if self.omitted_keys {
                    0
                } else {
                    entry_count
                },
            )?;
            slots.checked_mul(2)
        } else {
            entry_count.checked_mul(8)
        }
    }

    /// Bytes the internal metadata area occupies.
    pub fn internal_meta_size(self, entry_count: usize) -> (r: Option<usize>)
        ensures
            match r {
                Some(v) => v == self.internal_meta(entry_count as nat),
                None => self.internal_meta(entry_count as nat) > usize::MAX,
            },
    {
        if self.compact_meta {
            if self.omitted_keys {
                Some(0)
            } else {
                entry_count.checked_add(1)?.checked_mul(2)
            }
        } else {
            entry_count.checked_mul(6)
        }
    }

    /// Bytes the digest array occupies.
    pub fn digest_area_size(self, entry_count: usize) -> (r: Option<usize>)
        ensures
            match r {
                Some(v) => v == self.digest_area(entry_count as nat),
                None => self.digest_area(entry_count as nat) > usize::MAX,
            },
    {
        self.digest_slots(entry_count).checked_mul(8)
    }
}

/// Decoded node header.
#[derive(Debug, Clone, Copy, PartialEq, Eq, Structural)]
pub struct NodeHeader {
    /// Leaf or internal.
    pub kind: NodeKind,
    /// Layout flags.
    pub layout: NodeLayout,
    /// Number of entries on the page.
    pub entry_count: usize,
    /// Left sibling at the same level, if any.
    pub left_sibling: Option<PageOrdinal>,
    /// Right sibling at the same level, if any.
    pub right_sibling: Option<PageOrdinal>,
}

/// Where a leaf entry's value lives.
#[derive(Debug, Clone, Copy, PartialEq, Eq, Structural)]
pub enum LeafValue {
    /// Bytes inside this page.
    Inline {
        /// Offset of the first value byte.
        offset: usize,
        /// Value length.
        len: usize,
    },
    /// Bytes on a dedicated blob page.
    Overflow {
        /// The blob page.
        page: PageOrdinal,
    },
}

/// One decoded leaf entry.
#[derive(Debug, Clone, Copy, PartialEq, Eq, Structural)]
pub struct LeafEntry {
    /// Offset of the key bytes. Meaningless when `key_len` is zero.
    pub key_offset: usize,
    /// Key length. Zero on `OmittedKeys` pages, where the key comes from the digest.
    pub key_len: usize,
    /// The value.
    pub value: LeafValue,
}

/// One decoded internal entry (separator key plus child).
#[derive(Debug, Clone, Copy, PartialEq, Eq, Structural)]
pub struct InternalEntry {
    /// Offset of the separator key bytes.
    pub key_offset: usize,
    /// Separator key length. Zero on `OmittedKeys` pages.
    pub key_len: usize,
    /// Child page.
    pub child: PageOrdinal,
}

// What the bytes of a page say.

/// The kind word.
pub open spec fn kind_word(p: Seq<u8>) -> int {
    bytes::u32_at(p, KIND_OFFSET as int)
}

/// Leaf or internal.
pub open spec fn page_kind(p: Seq<u8>) -> NodeKind {
    if kind_word(p) % 0x100 == 0 {
        NodeKind::Leaf
    } else {
        NodeKind::Internal
    }
}

/// Layout flags.
pub open spec fn page_layout(p: Seq<u8>) -> NodeLayout {
    NodeLayout {
        eytzinger: kind_word(p) / 0x200 % 2 == 1,
        compact_meta: kind_word(p) / 0x400 % 2 == 1,
        omitted_keys: kind_word(p) / 0x800 % 2 == 1,
    }
}

/// Number of entries.
pub open spec fn page_count(p: Seq<u8>) -> nat {
    bytes::i32_at(p, ENTRY_COUNT_OFFSET as int) as nat
}

/// Left sibling at the same level.
pub open spec fn page_left(p: Seq<u8>) -> Option<PageOrdinal> {
    super::ordinal_of(bytes::i64_at(p, LEFT_SIBLING_OFFSET as int))->Some_0
}

/// Right sibling at the same level.
pub open spec fn page_right(p: Seq<u8>) -> Option<PageOrdinal> {
    super::ordinal_of(bytes::i64_at(p, RIGHT_SIBLING_OFFSET as int))->Some_0
}

/// Where the metadata area starts.
pub open spec fn meta_base(p: Seq<u8>) -> int {
    DIGEST_BASE + page_layout(p).digest_area(page_count(p))
}

/// Where the payload area starts.
pub open spec fn payload_base(p: Seq<u8>) -> int {
    meta_base(p) + page_layout(p).meta_area(page_kind(p), page_count(p))
}

/// Whether the header is one this format knows.
pub open spec fn header_ok(p: Seq<u8>) -> bool {
    &&& p.len() >= PAGE_PREFIX_LEN
    &&& bytes::i32_at(p, 0) == p.len()
    // The low byte is the kind, bits 9 to 11 are the known flags, and bit 8 is retired.
    &&& kind_word(p) % 0x100 <= 1
    &&& kind_word(p) / 0x100 % 2 == 0
    &&& kind_word(p) / 0x1000 == 0
    &&& page_layout(p).valid()
    &&& page_layout(p).compact_meta ==> p.len() <= MAX_COMPACT_PAGE_SIZE
    &&& bytes::i32_at(p, ENTRY_COUNT_OFFSET as int) >= 0
    &&& super::ordinal_of(bytes::i64_at(p, LEFT_SIBLING_OFFSET as int)) is Some
    &&& super::ordinal_of(bytes::i64_at(p, RIGHT_SIBLING_OFFSET as int)) is Some
}

/// Whether a page parses: a known header, and areas that fit the page.
pub open spec fn page_ok(p: Seq<u8>) -> bool {
    header_ok(p) && payload_base(p) <= p.len()
}

/// The digest area, one number per slot.
pub open spec fn page_slots(p: Seq<u8>) -> Seq<u64> {
    Seq::new(
        page_layout(p).slots(page_count(p)),
        |i: int| bytes::u64_at(p, DIGEST_BASE + 8 * i) as u64,
    )
}

/// The digests in ascending order: the slots themselves, or their in-order walk.
pub open spec fn page_digests(p: Seq<u8>) -> Seq<u64> {
    if page_layout(p).eytzinger {
        eytzinger::in_order(page_slots(p))
    } else {
        page_slots(p)
    }
}

/// A page has a digest for every entry.
pub proof fn lemma_digest_count(p: Seq<u8>)
    ensures
        page_digests(p).len() >= page_count(p),
{
    eytzinger::lemma_complete_height(page_count(p));
}

/// Whether `r` is a place in `ds` with a digest below `d` before it and one that is not
/// below `d` after it.
pub open spec fn is_rank(ds: Seq<u64>, d: u64, r: int) -> bool {
    &&& 0 <= r <= ds.len()
    &&& r > 0 ==> ds[r - 1] < d
    &&& r < ds.len() ==> ds[r] >= d
}

/// Whether digests ascend.
pub open spec fn ascending(ds: Seq<u64>) -> bool {
    forall|i: int, j: int| 0 <= i <= j < ds.len() ==> ds[i] <= ds[j]
}

/// In ascending digests, the rank of a digest is the number of digests below it.
pub proof fn lemma_rank_splits(ds: Seq<u64>, d: u64, r: int)
    requires
        ascending(ds),
        is_rank(ds, d, r),
    ensures
        forall|i: int| 0 <= i < r ==> ds[i] < d,
        forall|i: int| r <= i < ds.len() ==> ds[i] >= d,
        ds.filter(|x: u64| x < d).len() == r,
{
    let below = |x: u64| x < d;
    let front = ds.subrange(0, r);
    let back = ds.subrange(r, ds.len() as int);
    assert(ds =~= front + back);
    Seq::filter_distributes_over_add(front, back, below);
    assert(front.filter(below) =~= front) by {
        lemma_filter_all(front, below);
    }
    assert(back.filter(below).len() == 0) by {
        lemma_filter_none(back, below);
    }
}

proof fn lemma_filter_all(s: Seq<u64>, f: spec_fn(u64) -> bool)
    requires
        forall|i: int| 0 <= i < s.len() ==> f(s[i]),
    ensures
        s.filter(f) == s,
    decreases s.len(),
{
    reveal(Seq::filter);
    if s.len() > 0 {
        lemma_filter_all(s.drop_last(), f);
        assert(s.drop_last().push(s.last()) =~= s);
    } else {
        assert(s.filter(f) =~= s);
    }
}

proof fn lemma_filter_none(s: Seq<u64>, f: spec_fn(u64) -> bool)
    requires
        forall|i: int| 0 <= i < s.len() ==> !f(s[i]),
    ensures
        s.filter(f).len() == 0,
    decreases s.len(),
{
    reveal(Seq::filter);
    if s.len() > 0 {
        lemma_filter_none(s.drop_last(), f);
    }
}

/// Offset, key length, and length of an entry's payload with the key, where a value that
/// lives elsewhere counts for the eight bytes of its page ordinal.
pub struct EntrySpan {
    pub offset: int,
    pub key_len: int,
    pub value_len: int,
    pub overflow: bool,
}

/// What the metadata says of the `i`-th leaf entry, if it makes sense.
pub open spec fn leaf_span(p: Seq<u8>, i: int) -> Option<EntrySpan> {
    let base = meta_base(p);
    if page_layout(p).compact_meta {
        let raw = bytes::u16_at(p, base + 2 * i);
        let offset = raw % 0x8000;
        let next = bytes::u16_at(p, base + 2 * (i + 1)) % 0x8000;
        let key_len = if page_layout(p).omitted_keys {
            0
        } else {
            bytes::u16_at(p, base + 2 * (page_count(p) + 1) + 2 * i)
        };
        if offset + key_len <= next {
            Some(
                EntrySpan {
                    offset,
                    key_len,
                    value_len: if raw >= 0x8000 {
                        8
                    } else {
                        next - offset - key_len
                    },
                    overflow: raw >= 0x8000,
                },
            )
        } else {
            None
        }
    } else {
        let offset = bytes::i32_at(p, base + 8 * i);
        let stored = bytes::u16_at(p, base + 8 * i + 6);
        if offset >= 0 {
            Some(
                EntrySpan {
                    offset,
                    key_len: bytes::u16_at(p, base + 8 * i + 4),
                    value_len: if stored == OVERFLOW_SENTINEL {
                        8
                    } else {
                        stored
                    },
                    overflow: stored == OVERFLOW_SENTINEL,
                },
            )
        } else {
            None
        }
    }
}

/// What the metadata says of the `i`-th internal entry, if it makes sense.
pub open spec fn internal_span(p: Seq<u8>, i: int) -> Option<EntrySpan> {
    let base = meta_base(p);
    if page_layout(p).compact_meta {
        if page_layout(p).omitted_keys {
            // No metadata area at all: the payload is a dense array of child ordinals.
            Some(EntrySpan { offset: base + 8 * i, key_len: 0, value_len: 8, overflow: true })
        } else {
            let raw = bytes::u16_at(p, base + 2 * i);
            let next = bytes::u16_at(p, base + 2 * (i + 1));
            if raw + 8 <= next {
                Some(
                    EntrySpan {
                        offset: raw,
                        key_len: next - raw - 8,
                        value_len: 8,
                        overflow: true,
                    },
                )
            } else {
                None
            }
        }
    } else {
        let offset = bytes::i32_at(p, base + 6 * i);
        if offset >= 0 {
            Some(
                EntrySpan {
                    offset,
                    key_len: bytes::u16_at(p, base + 6 * i + 4),
                    value_len: 8,
                    overflow: true,
                },
            )
        } else {
            None
        }
    }
}

/// Whether an entry's payload stays in the payload area.
pub open spec fn span_fits(p: Seq<u8>, s: EntrySpan) -> bool {
    payload_base(p) <= s.offset && s.offset + s.key_len + s.value_len <= p.len()
}

/// The page ordinal an entry's payload ends with, when there is one.
pub open spec fn span_page(p: Seq<u8>, s: EntrySpan) -> Option<PageOrdinal> {
    match super::ordinal_of(bytes::i64_at(p, s.offset + s.key_len)) {
        Some(o) => o,
        None => None,
    }
}

/// The `i`-th leaf entry, if it is well formed.
pub open spec fn leaf_entry_at(p: Seq<u8>, i: int) -> Option<LeafEntry> {
    match leaf_span(p, i) {
        Some(s) if span_fits(p, s) => if s.overflow {
            match span_page(p, s) {
                Some(page) => Some(
                    LeafEntry {
                        key_offset: s.offset as usize,
                        key_len: s.key_len as usize,
                        value: LeafValue::Overflow { page },
                    },
                ),
                None => None,
            }
        } else {
            Some(
                LeafEntry {
                    key_offset: s.offset as usize,
                    key_len: s.key_len as usize,
                    value: LeafValue::Inline {
                        offset: (s.offset + s.key_len) as usize,
                        len: s.value_len as usize,
                    },
                },
            )
        },
        _ => None,
    }
}

/// The `i`-th internal entry, if it is well formed.
pub open spec fn internal_entry_at(p: Seq<u8>, i: int) -> Option<InternalEntry> {
    match internal_span(p, i) {
        Some(s) if span_fits(p, s) => match span_page(p, s) {
            Some(child) => Some(
                InternalEntry {
                    key_offset: s.offset as usize,
                    key_len: s.key_len as usize,
                    child,
                },
            ),
            None => None,
        },
        _ => None,
    }
}

/// Whether the `i`-th entry is well formed.
pub open spec fn entry_ok(p: Seq<u8>, i: int) -> bool {
    match page_kind(p) {
        NodeKind::Leaf => leaf_entry_at(p, i) is Some,
        NodeKind::Internal => internal_entry_at(p, i) is Some,
    }
}

/// Whether every entry is well formed.
pub open spec fn entries_ok(p: Seq<u8>) -> bool {
    forall|i: int| 0 <= i < page_count(p) ==> #[trigger] entry_ok(p, i)
}

/// The key bytes an entry stores.
pub open spec fn entry_key_at(p: Seq<u8>, i: int) -> Seq<u8> {
    match page_kind(p) {
        NodeKind::Leaf => {
            let e = leaf_entry_at(p, i)->Some_0;
            p.subrange(e.key_offset as int, e.key_offset + e.key_len)
        },
        NodeKind::Internal => {
            let e = internal_entry_at(p, i)->Some_0;
            p.subrange(e.key_offset as int, e.key_offset + e.key_len)
        },
    }
}

/// A parsed, bounds-checked view over one page's bytes.
#[derive(Debug, Clone, Copy)]
pub struct PageView<'a> {
    bytes: &'a [u8],
    header: NodeHeader,
    meta_base: usize,
    payload_base: usize,
}

/// The decoded header of a page that parses.
pub open spec fn page_header(p: Seq<u8>) -> NodeHeader {
    NodeHeader {
        kind: page_kind(p),
        layout: page_layout(p),
        entry_count: page_count(p) as usize,
        left_sibling: page_left(p),
        right_sibling: page_right(p),
    }
}

impl<'a> PageView<'a> {
    #[verifier::type_invariant]
    closed spec fn consistent(&self) -> bool {
        let p = self.bytes@;
        &&& page_ok(p)
        &&& self.header == page_header(p)
        &&& self.header.entry_count == page_count(p)
        &&& self.meta_base == meta_base(p)
        &&& self.payload_base == payload_base(p)
    }

    /// The page this is a view of.
    pub closed spec fn page(&self) -> Seq<u8> {
        self.bytes@
    }

    /// Parses the header and area bounds of a page.
    ///
    /// `bytes` must be exactly the page: its length must equal the stored page length.
    #[verifier::rlimit(60)]
    #[verifier::spinoff_prover]
    pub fn parse(bytes: &'a [u8]) -> (r: Result<PageView<'a>, Error>)
        ensures
            match r {
                Ok(view) => page_ok(bytes@) && view.page() == bytes@,
                Err(e) => !page_ok(bytes@) && e.is_corrupt(),
            },
    {
        if bytes.len() < PAGE_PREFIX_LEN {
            return Err(
                Error::corrupt_number(
                    "page is ",
                    bytes.len() as u64,
                    " bytes, shorter than the 28 byte prefix",
                ),
            );
        }
        let stored_len = checked_len(read_i32(bytes, 0)?, "negative page length")?;
        if stored_len != bytes.len() {
            return Err(
                Error::corrupt_words(
                    Words::new("page length field says ")
                        .number(stored_len as u64)
                        .say(" but the page buffer holds ")
                        .number(bytes.len() as u64)
                        .say(" bytes"),
                ),
            );
        }
        let word = read_u32(bytes, KIND_OFFSET)?;
        let low = word % 0x100;
        let kind = if low == 0 {
            NodeKind::Leaf
        } else if low == 1 {
            NodeKind::Internal
        } else {
            return Err(Error::corrupt_number("unknown node kind ", low as u64, ""));
        };
        if word / 0x100 % 2 != 0 {
            return Err(
                Error::corrupt("page sets the retired HasKeyDigests flag (pre-1.4 layout)"),
            );
        }
        if word / 0x1000 != 0 {
            return Err(Error::corrupt("page sets unknown node flags"));
        }
        let layout = NodeLayout {
            eytzinger: word / 0x200 % 2 == 1,
            compact_meta: word / 0x400 % 2 == 1,
            omitted_keys: word / 0x800 % 2 == 1,
        };
        if layout.omitted_keys && !layout.compact_meta {
            return Err(Error::corrupt("OmittedKeys requires CompactMeta"));
        }
        if layout.omitted_keys && layout.eytzinger {
            return Err(Error::corrupt("OmittedKeys and EytzingerDigests cannot be combined"));
        }
        if layout.compact_meta && stored_len > MAX_COMPACT_PAGE_SIZE {
            return Err(
                Error::corrupt_number(
                    "CompactMeta page is ",
                    stored_len as u64,
                    " bytes, above the 32767 byte limit",
                ),
            );
        }
        let entry_count = checked_len(
            read_i32(bytes, ENTRY_COUNT_OFFSET)?,
            "negative entry count",
        )?;
        let left_sibling = PageOrdinal::from_i64(read_i64(bytes, LEFT_SIBLING_OFFSET)?)?;
        let right_sibling = PageOrdinal::from_i64(read_i64(bytes, RIGHT_SIBLING_OFFSET)?)?;
        proof {
            assert(header_ok(bytes@));
        }
        let digest_area = match layout.digest_area_size(entry_count) {
            Some(area) => area,
            None => return Err(Error::corrupt("digest area size overflows")),
        };
        let meta_base = match DIGEST_BASE.checked_add(digest_area) {
            Some(base) => base,
            None => return Err(Error::corrupt("digest area end overflows")),
        };
        if meta_base > bytes.len() {
            return Err(
                Error::corrupt_words(
                    Words::new("digest area ends at ")
                        .number(meta_base as u64)
                        .say(", past the ")
                        .number(bytes.len() as u64)
                        .say(" byte page"),
                ),
            );
        }
        let meta_area = match kind {
            NodeKind::Leaf => layout.leaf_meta_size(entry_count),
            NodeKind::Internal => layout.internal_meta_size(entry_count),
        };
        let meta_area = match meta_area {
            Some(area) => area,
            None => return Err(Error::corrupt("metadata area size overflows")),
        };
        let payload_base = match meta_base.checked_add(meta_area) {
            Some(base) => base,
            None => return Err(Error::corrupt("metadata area end overflows")),
        };
        if payload_base > bytes.len() {
            return Err(
                Error::corrupt_words(
                    Words::new("metadata area ends at ")
                        .number(payload_base as u64)
                        .say(", past the ")
                        .number(bytes.len() as u64)
                        .say(" byte page"),
                ),
            );
        }
        Ok(
            PageView {
                bytes,
                header: NodeHeader { kind, layout, entry_count, left_sibling, right_sibling },
                meta_base,
                payload_base,
            },
        )
    }

    /// The page bytes.
    pub fn bytes(&self) -> (r: &'a [u8])
        ensures
            r@ == self.page(),
            page_ok(self.page()),
    {
        proof {
            use_type_invariant(self);
        }
        self.bytes
    }

    /// The decoded header.
    pub fn header(&self) -> (r: NodeHeader)
        ensures
            page_ok(self.page()),
            r == page_header(self.page()),
            r.entry_count == page_count(self.page()),
    {
        proof {
            use_type_invariant(self);
        }
        self.header
    }

    /// Leaf or internal.
    pub fn kind(&self) -> (r: NodeKind)
        ensures
            page_ok(self.page()),
            r == page_kind(self.page()),
    {
        proof {
            use_type_invariant(self);
        }
        self.header.kind
    }

    /// Layout flags.
    pub fn layout(&self) -> (r: NodeLayout)
        ensures
            page_ok(self.page()),
            r == page_layout(self.page()),
    {
        proof {
            use_type_invariant(self);
        }
        self.header.layout
    }

    /// Number of entries.
    pub fn entry_count(&self) -> (r: usize)
        ensures
            page_ok(self.page()),
            r == page_count(self.page()),
    {
        proof {
            use_type_invariant(self);
        }
        self.header.entry_count
    }

    /// Left sibling at the same level.
    pub fn left_sibling(&self) -> (r: Option<PageOrdinal>)
        ensures
            page_ok(self.page()),
            r == page_left(self.page()),
    {
        proof {
            use_type_invariant(self);
        }
        self.header.left_sibling
    }

    /// Right sibling at the same level.
    pub fn right_sibling(&self) -> (r: Option<PageOrdinal>)
        ensures
            page_ok(self.page()),
            r == page_right(self.page()),
    {
        proof {
            use_type_invariant(self);
        }
        self.header.right_sibling
    }

    /// Payload bytes of a blob page: everything after the page prefix.
    pub fn blob_payload(&self) -> (r: &'a [u8])
        ensures
            page_ok(self.page()),
            r@ == self.page().subrange(PAGE_PREFIX_LEN as int, self.page().len() as int),
    {
        proof {
            use_type_invariant(self);
        }
        vstd::slice::slice_subrange(self.bytes, PAGE_PREFIX_LEN, self.bytes.len())
    }

    /// Walks every entry, checking that its metadata stays inside the page.
    pub fn validate(&self) -> (r: Result<(), Error>)
        ensures
            page_ok(self.page()),
            match r {
                Ok(_) => entries_ok(self.page()),
                Err(e) => !entries_ok(self.page()) && e.is_corrupt(),
            },
    {
        proof {
            use_type_invariant(self);
        }
        let ghost p = self.page();
        let mut i: usize = 0;
        while i < self.header.entry_count
            invariant
                page_ok(p),
                p == self.page(),
                self.header == page_header(p),
                self.header.entry_count == page_count(p),
                i <= page_count(p),
                forall|j: int| 0 <= j < i ==> #[trigger] entry_ok(p, j),
            decreases page_count(p) - i,
        {
            match self.header.kind {
                NodeKind::Leaf => match self.leaf_entry(i) {
                    Ok(_) => {},
                    Err(e) => {
                        proof {
                            assert(!entry_ok(p, i as int));
                        }
                        return Err(e);
                    },
                },
                NodeKind::Internal => match self.internal_entry(i) {
                    Ok(_) => {},
                    Err(e) => {
                        proof {
                            assert(!entry_ok(p, i as int));
                        }
                        return Err(e);
                    },
                },
            }
            i += 1;
        }
        Ok(())
    }

    /// The digest stored for the `index`-th entry in sorted order.
    ///
    /// Only meaningful when the digests are stored sorted; `OmittedKeys` pages, which
    /// need this to rebuild keys, never use the Eytzinger layout.
    pub fn digest_at(&self, index: usize) -> (r: Result<u64, Error>)
        ensures
            page_ok(self.page()),
            match r {
                Ok(d) => !page_layout(self.page()).eytzinger && index < page_count(self.page())
                    && d == page_digests(self.page())[index as int],
                Err(e) => e.is_corrupt() && (page_layout(self.page()).eytzinger || index
                    >= page_count(self.page())),
            },
    {
        proof {
            use_type_invariant(self);
        }
        if self.header.layout.eytzinger {
            return Err(Error::corrupt("sorted digest access on an Eytzinger page"));
        }
        if index >= self.header.entry_count {
            return Err(
                Error::corrupt_words(
                    Words::new("digest index ")
                        .number(index as u64)
                        .say(" is past the ")
                        .number(self.header.entry_count as u64)
                        .say(" entries on this page"),
                ),
            );
        }
        read_u64(self.bytes, DIGEST_BASE + index * 8)
    }

    /// The raw digest area, one `u64` per slot.
    ///
    /// For a sorted page this is one digest per entry; for an Eytzinger page it is the
    /// padded complete tree in BFS order, so slot `i` is node `i + 1`.
    pub fn digest_slot(&self, slot: usize) -> (r: Result<u64, Error>)
        ensures
            page_ok(self.page()),
            match r {
                Ok(d) => slot < page_slots(self.page()).len() && d == page_slots(
                    self.page(),
                )[slot as int],
                Err(e) => slot >= page_slots(self.page()).len() && e.is_corrupt(),
            },
    {
        proof {
            use_type_invariant(self);
        }
        if slot >= self.digest_slot_count() {
            return Err(
                Error::corrupt_number(
                    "digest slot ",
                    slot as u64,
                    " is past the slots on this page",
                ),
            );
        }
        read_u64(self.bytes, DIGEST_BASE + slot * 8)
    }

    /// The digest at position `rank` of the ascending order.
    ///
    /// On an Eytzinger page the position is found in the tree; on a sorted one it is the
    /// slot itself.
    pub fn ranked_digest(&self, rank: usize) -> (r: Result<u64, Error>)
        ensures
            page_ok(self.page()),
            match r {
                Ok(d) => rank < page_digests(self.page()).len() && d == page_digests(
                    self.page(),
                )[rank as int],
                Err(e) => rank >= page_digests(self.page()).len() && e.is_corrupt(),
            },
    {
        proof {
            use_type_invariant(self);
        }
        let slots = self.digest_slot_count();
        if !self.header.layout.eytzinger || rank >= slots {
            return self.digest_slot(rank);
        }
        let ghost n = slots as nat;
        let ghost h = eytzinger::height(n);
        proof {
            let count = page_count(self.page());
            eytzinger::lemma_complete_height(count);
            assert(eytzinger::is_complete(eytzinger::complete(count) as int));
            eytzinger::lemma_complete_is_smallest(n, n as int);
            eytzinger::lemma_complete_height(n);
            lemma2_to64();
            assert(pow2(h) == n + 1);
            if h == 0 {
                assert(pow2(0) == 1);
            }
            lemma_pow2_unfold(h);
            eytzinger::lemma_node_in_tree(h, rank as int);
        }
        let node = eytzinger::find_node(1, slots / 2 + 1, rank, Ghost(h));
        self.digest_slot(node - 1)
    }

    /// Number of `u64` slots in the digest area.
    pub fn digest_slot_count(&self) -> (r: usize)
        ensures
            page_ok(self.page()),
            r == page_slots(self.page()).len(),
    {
        proof {
            use_type_invariant(self);
        }
        (self.meta_base - DIGEST_BASE) / 8
    }

    /// Number of digests strictly less than `key_digest`, i.e. the index of the first
    /// entry that can match.
    ///
    /// The digests on either side of the answer are on either side of `key_digest`, so
    /// when they ascend, the answer is that number; see [`lemma_rank_splits`].
    pub fn lower_bound_rank(&self, key_digest: u64) -> (r: Result<usize, Error>)
        ensures
            page_ok(self.page()),
            r is Ok,
            is_rank(page_digests(self.page()), key_digest, r->Ok_0 as int),
    {
        proof {
            use_type_invariant(self);
        }
        if self.header.layout.eytzinger {
            self.eytzinger_rank(key_digest)
        } else {
            let ghost ds = page_digests(self.page());
            let mut lo: usize = 0;
            let mut hi: usize = self.header.entry_count;
            while lo < hi
                invariant
                    page_ok(self.page()),
                    ds == page_digests(self.page()),
                    ds == page_slots(self.page()),
                    lo <= hi <= ds.len(),
                    lo > 0 ==> ds[lo - 1] < key_digest,
                    hi < ds.len() ==> ds[hi as int] >= key_digest,
                decreases hi - lo,
            {
                let mid = lo + (hi - lo) / 2;
                if self.digest_slot(mid)? < key_digest {
                    lo = mid + 1;
                } else {
                    hi = mid;
                }
            }
            Ok(lo)
        }
    }

    /// The descent over an Eytzinger tree: left at a digest that is not below the key's,
    /// right otherwise. The padded tree is complete, so this always ends after as many
    /// steps as the tree is high.
    fn eytzinger_rank(&self, key_digest: u64) -> (r: Result<usize, Error>)
        requires
            page_layout(self.page()).eytzinger,
        ensures
            page_ok(self.page()),
            r is Ok,
            is_rank(page_digests(self.page()), key_digest, r->Ok_0 as int),
    {
        proof {
            use_type_invariant(self);
        }
        let complete = self.digest_slot_count();
        let ghost slots = page_slots(self.page());
        let ghost ds = page_digests(self.page());
        let ghost n = slots.len();
        let ghost h = eytzinger::height(n);
        let ghost mut k = h;
        let ghost mut lo: int = 0;
        let ghost mut q: int = 0;
        let mut i: usize = 1;
        proof {
            eytzinger::lemma_complete_height(page_count(self.page()));
            let c = eytzinger::complete(page_count(self.page()));
            assert(eytzinger::is_complete(c as int));
            eytzinger::lemma_complete_is_smallest(n, n as int);
            eytzinger::lemma_complete_height(n);
            lemma2_to64();
            assert(pow2(h) == n + 1);
        }
        while i <= complete
            invariant
                page_ok(self.page()),
                slots == page_slots(self.page()),
                ds == eytzinger::in_order(slots),
                n == slots.len(),
                complete == n,
                8 * n + 28 <= usize::MAX,
                h == eytzinger::height(n),
                pow2(h) == n + 1,
                k <= h,
                lo == q * pow2(k),
                i == pow2((h - k) as nat) + q,
                0 <= q < pow2((h - k) as nat),
                0 <= lo,
                lo + pow2(k) - 1 <= n,
                forall|x: int|
                    0 <= x < pow2(k) - 1 ==> #[trigger] eytzinger::node_at(1, h, lo + x)
                        == eytzinger::node_at(i as int, k, x),
                lo > 0 ==> ds[lo - 1] < key_digest,
                lo + pow2(k) - 1 < n ==> ds[lo + pow2(k) - 1] >= key_digest,
            decreases k,
        {
            proof {
                lemma_pow2_pos(k);
                if k == 0 {
                    assert(i >= pow2(h));
                }
                lemma_pow2_unfold(k);
                lemma_pow2_unfold((h - k + 1) as nat);
                lemma_pow2_pos((k - 1) as nat);
            }
            let digest = self.digest_slot(i - 1)?;
            let ghost half = pow2((k - 1) as nat);
            let ghost mid = lo + half - 1;
            let ghost j = i as int;
            proof {
                assert(eytzinger::node_at(1, h, lo + (half - 1)) == eytzinger::node_at(
                    j,
                    k,
                    half - 1,
                ));
                assert(ds[mid] == digest);
            }
            if digest < key_digest {
                i = 2 * i + 1;
                proof {
                    assert forall|x: int| 0 <= x < half - 1 implies #[trigger] eytzinger::node_at(
                        1,
                        h,
                        mid + 1 + x,
                    ) == eytzinger::node_at(2 * j + 1, (k - 1) as nat, x) by {
                        assert(eytzinger::node_at(1, h, lo + (half + x)) == eytzinger::node_at(
                            j,
                            k,
                            half + x,
                        ));
                    }
                    assert((2 * q + 1) * half == q * (2 * half) + half) by (nonlinear_arith);
                    lo = mid + 1;
                    q = 2 * q + 1;
                }
            } else {
                i = 2 * i;
                proof {
                    assert forall|x: int| 0 <= x < half - 1 implies #[trigger] eytzinger::node_at(
                        1,
                        h,
                        lo + x,
                    ) == eytzinger::node_at(2 * j, (k - 1) as nat, x) by {
                        assert(eytzinger::node_at(1, h, lo + x) == eytzinger::node_at(j, k, x));
                    }
                    assert((2 * q) * half == q * (2 * half)) by (nonlinear_arith);
                    q = 2 * q;
                }
            }
            proof {
                k = (k - 1) as nat;
            }
        }
        proof {
            if k > 0 {
                lemma_pow2_unfold((h - k + 1) as nat);
                vstd::arithmetic::power2::lemma_pow2_adds((h - k + 1) as nat, (k - 1) as nat);
                lemma_pow2_pos((k - 1) as nat);
                let a = pow2((h - k + 1) as nat) as int;
                let b = pow2((k - 1) as nat) as int;
                assert(a <= a * b) by (nonlinear_arith)
                    requires
                        b >= 1,
                        a >= 0,
                ;
                assert(i <= n);
            }
            lemma2_to64();
            assert(q * 1 == q);
        }
        Ok(i - complete - 1)
    }

    fn check_index(&self, index: usize) -> (r: Result<(), Error>)
        ensures
            match r {
                Ok(_) => index < page_count(self.page()),
                Err(e) => index >= page_count(self.page()) && e.is_corrupt(),
            },
    {
        proof {
            use_type_invariant(self);
        }
        if index >= self.header.entry_count {
            return Err(
                Error::corrupt_words(
                    Words::new("entry index ")
                        .number(index as u64)
                        .say(" is past the ")
                        .number(self.header.entry_count as u64)
                        .say(" entries on this page"),
                ),
            );
        }
        Ok(())
    }

    fn payload_range(&self, offset: usize, len: usize) -> (r: Result<(), Error>)
        ensures
            match r {
                Ok(_) => payload_base(self.page()) <= offset && offset + len <= self.page().len(),
                Err(e) => e.is_corrupt() && !(payload_base(self.page()) <= offset && offset + len
                    <= self.page().len()),
            },
    {
        proof {
            use_type_invariant(self);
        }
        if offset < self.payload_base {
            return Err(
                Error::corrupt_words(
                    Words::new("entry payload offset ")
                        .number(offset as u64)
                        .say(" points inside the metadata area (payloads start at ")
                        .number(self.payload_base as u64)
                        .say(")"),
                ),
            );
        }
        let end = match offset.checked_add(len) {
            Some(end) => end,
            None => return Err(Error::corrupt("entry payload end overflows")),
        };
        if end > self.bytes.len() {
            return Err(
                Error::corrupt_words(
                    Words::new("entry payload ")
                        .number(offset as u64)
                        .say("..")
                        .number(end as u64)
                        .say(" exceeds the ")
                        .number(self.bytes.len() as u64)
                        .say(" byte page"),
                ),
            );
        }
        Ok(())
    }

    /// Decodes the `index`-th leaf entry.
    pub fn leaf_entry(&self, index: usize) -> (r: Result<LeafEntry, Error>)
        ensures
            page_ok(self.page()),
            match r {
                Ok(e) => page_kind(self.page()) == NodeKind::Leaf && index < page_count(
                    self.page(),
                ) && leaf_entry_at(self.page(), index as int) == Some(e) && e.key_offset
                    + e.key_len <= self.page().len() && (e.value matches LeafValue::Inline {
                    offset,
                    len,
                } ==> offset + len <= self.page().len()),
                Err(e) => e.is_corrupt() && (page_kind(self.page()) != NodeKind::Leaf || index
                    >= page_count(self.page()) || leaf_entry_at(self.page(), index as int) is None),
            },
    {
        proof {
            use_type_invariant(self);
        }
        let ghost p = self.page();
        if self.header.kind != NodeKind::Leaf {
            return Err(Error::corrupt("leaf accessor used on an internal page"));
        }
        self.check_index(index)?;
        let offset: usize;
        let key_len: usize;
        let value_len: usize;
        let overflow: bool;
        if self.header.layout.compact_meta {
            let raw = read_u16(self.bytes, self.meta_base + index * 2)?;
            let next = read_u16(self.bytes, self.meta_base + (index + 1) * 2)?;
            offset = (raw % COMPACT_OVERFLOW_BIT) as usize;
            let next_offset = (next % COMPACT_OVERFLOW_BIT) as usize;
            key_len = if self.header.layout.omitted_keys {
                0
            } else {
                read_u16(
                    self.bytes,
                    self.meta_base + (self.header.entry_count + 1) * 2 + index * 2,
                )? as usize
            };
            if next_offset < offset {
                return Err(
                    Error::corrupt_words(
                        Words::new("compact offsets are not monotonic at entry ")
                            .number(index as u64)
                            .say(" (")
                            .number(offset as u64)
                            .say(" > ")
                            .number(next_offset as u64)
                            .say(")"),
                    ),
                );
            }
            let span = next_offset - offset;
            if key_len > span {
                return Err(
                    Error::corrupt_words(
                        Words::new("entry ")
                            .number(index as u64)
                            .say(" declares a ")
                            .number(key_len as u64)
                            .say(" byte key in a ")
                            .number(span as u64)
                            .say(" byte payload"),
                    ),
                );
            }
            overflow = raw >= COMPACT_OVERFLOW_BIT;
            value_len = if overflow {
                8
            } else {
                span - key_len
            };
        } else {
            let base = self.meta_base + index * 8;
            offset = checked_len(read_i32(self.bytes, base)?, "negative entry payload offset")?;
            key_len = read_u16(self.bytes, base + 4)? as usize;
            let stored = read_u16(self.bytes, base + 6)?;
            overflow = stored == OVERFLOW_SENTINEL;
            value_len = if overflow {
                8
            } else {
                stored as usize
            };
        }
        proof {
            assert(leaf_span(p, index as int) == Some(
                EntrySpan {
                    offset: offset as int,
                    key_len: key_len as int,
                    value_len: value_len as int,
                    overflow,
                },
            ));
        }
        self.payload_range(offset, key_len + value_len)?;
        if overflow {
            match PageOrdinal::from_i64(read_i64(self.bytes, offset + key_len)?)? {
                Some(page) => Ok(
                    LeafEntry { key_offset: offset, key_len, value: LeafValue::Overflow { page } },
                ),
                None => Err(
                    Error::corrupt_number("entry ", index as u64, " points at an empty blob page"),
                ),
            }
        } else {
            Ok(
                LeafEntry {
                    key_offset: offset,
                    key_len,
                    value: LeafValue::Inline { offset: offset + key_len, len: value_len },
                },
            )
        }
    }

    /// Decodes the `index`-th internal entry.
    pub fn internal_entry(&self, index: usize) -> (r: Result<InternalEntry, Error>)
        ensures
            page_ok(self.page()),
            match r {
                Ok(e) => page_kind(self.page()) == NodeKind::Internal && index < page_count(
                    self.page(),
                ) && internal_entry_at(self.page(), index as int) == Some(e) && e.key_offset
                    + e.key_len <= self.page().len(),
                Err(e) => e.is_corrupt() && (page_kind(self.page()) != NodeKind::Internal || index
                    >= page_count(self.page()) || internal_entry_at(
                    self.page(),
                    index as int,
                ) is None),
            },
    {
        proof {
            use_type_invariant(self);
        }
        let ghost p = self.page();
        if self.header.kind != NodeKind::Internal {
            return Err(Error::corrupt("internal accessor used on a leaf page"));
        }
        self.check_index(index)?;
        let offset: usize;
        let key_len: usize;
        if self.header.layout.compact_meta {
            if self.header.layout.omitted_keys {
                // No metadata area at all: the payload is a dense array of child
                // ordinals. The page may be too short for all of them.
                offset = match index.checked_mul(8) {
                    Some(skip) => match self.meta_base.checked_add(skip) {
                        Some(offset) => offset,
                        None => return Err(Error::corrupt("entry payload end overflows")),
                    },
                    None => return Err(Error::corrupt("entry payload end overflows")),
                };
                key_len = 0;
            } else {
                let raw = read_u16(self.bytes, self.meta_base + index * 2)? as usize;
                let next = read_u16(self.bytes, self.meta_base + (index + 1) * 2)? as usize;
                if next < raw + 8 {
                    return Err(
                        Error::corrupt_words(
                            Words::new("internal entry ")
                                .number(index as u64)
                                .say(" has a ")
                                .number(next.saturating_sub(raw) as u64)
                                .say(" byte payload, too small for a child ordinal"),
                        ),
                    );
                }
                offset = raw;
                key_len = next - raw - 8;
            }
        } else {
            let base = self.meta_base + index * 6;
            offset = checked_len(read_i32(self.bytes, base)?, "negative entry payload offset")?;
            key_len = read_u16(self.bytes, base + 4)? as usize;
        }
        proof {
            assert(internal_span(p, index as int) == Some(
                EntrySpan {
                    offset: offset as int,
                    key_len: key_len as int,
                    value_len: 8,
                    overflow: true,
                },
            ));
        }
        self.payload_range(offset, key_len + 8)?;
        match PageOrdinal::from_i64(read_i64(self.bytes, offset + key_len)?)? {
            Some(child) => Ok(InternalEntry { key_offset: offset, key_len, child }),
            None => Err(
                Error::corrupt_number("internal entry ", index as u64, " has no child page"),
            ),
        }
    }

    /// Key bytes of a leaf entry. Empty on `OmittedKeys` pages.
    pub fn leaf_key(&self, entry: &LeafEntry) -> (r: Result<&'a [u8], Error>)
        ensures
            match r {
                Ok(key) => entry.key_offset + entry.key_len <= self.page().len() && key@
                    == self.page().subrange(
                    entry.key_offset as int,
                    entry.key_offset + entry.key_len,
                ),
                Err(e) => entry.key_offset + entry.key_len > self.page().len() && e.is_corrupt(),
            },
    {
        read_slice(self.bytes, entry.key_offset, entry.key_len)
    }

    /// Key bytes of an internal entry. Empty on `OmittedKeys` pages.
    pub fn internal_key(&self, entry: &InternalEntry) -> (r: Result<&'a [u8], Error>)
        ensures
            match r {
                Ok(key) => entry.key_offset + entry.key_len <= self.page().len() && key@
                    == self.page().subrange(
                    entry.key_offset as int,
                    entry.key_offset + entry.key_len,
                ),
                Err(e) => entry.key_offset + entry.key_len > self.page().len() && e.is_corrupt(),
            },
    {
        read_slice(self.bytes, entry.key_offset, entry.key_len)
    }

    /// Inline value bytes.
    pub fn inline_value(&self, offset: usize, len: usize) -> (r: Result<&'a [u8], Error>)
        ensures
            match r {
                Ok(value) => offset + len <= self.page().len() && value@ == self.page().subrange(
                    offset as int,
                    offset + len,
                ),
                Err(e) => offset + len > self.page().len() && e.is_corrupt(),
            },
    {
        read_slice(self.bytes, offset, len)
    }
}

} // verus!

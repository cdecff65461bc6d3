//! Page encoding.
//!
//! A page is its prefix, its digest slots, its entry metadata and its entry payloads, one
//! after the other. [`PageModel`] says which bytes those are for a given list of entries,
//! and [`PageModel::lemma_decodes`] that decoding them gives the entries back.

use vstd::prelude::*;

use crate::format::bytes::{self, put_i64, put_le2, put_le4, put_le8, put_slice};
use crate::format::eytzinger;
use crate::format::node::{self, NodeKind, NodeLayout};
use crate::format::pageref::PageRef;
use crate::format::{
    PageOrdinal, COMPACT_OVERFLOW_BIT, DIGEST_BASE, ENTRY_COUNT_OFFSET, KIND_OFFSET,
    LEFT_SIBLING_OFFSET, MAX_COMPACT_PAGE_SIZE, OVERFLOW_SENTINEL, PAGE_PREFIX_LEN,
    RIGHT_SIBLING_OFFSET,
};

verus! {

broadcast use crate::format::group_format;

/// The first `n` records of a sequence of equally long byte records.
pub open spec fn records(f: spec_fn(int) -> Seq<u8>, n: nat) -> Seq<u8>
    decreases n,
{
    if n == 0 {
        Seq::empty()
    } else {
        records(f, (n - 1) as nat) + f(n - 1)
    }
}

/// Where the records of a sequence of equally long byte records stand.
pub proof fn lemma_records(f: spec_fn(int) -> Seq<u8>, n: nat, w: nat, i: int)
    requires
        forall|j: int| 0 <= j < n ==> (#[trigger] f(j)).len() == w,
    ensures
        records(f, n).len() == n * w,
        0 <= i < n ==> 0 <= i * w && i * w + w <= n * w && records(f, n).subrange(i * w, i * w + w)
            == f(i),
    decreases n,
{
    if n > 0 {
        let m = (n - 1) as nat;
        lemma_records(f, m, w, i);
        assert(n * w == m * w + w) by (nonlinear_arith)
            requires
                n == m + 1,
        ;
        if 0 <= i < n {
            assert(0 <= i * w) by (nonlinear_arith)
                requires
                    0 <= i,
                    0 <= w,
            ;
            assert(i * w + w <= n * w) by (nonlinear_arith)
                requires
                    i + 1 <= n,
                    0 <= w,
            ;
            if i < m {
                assert(i * w + w <= m * w) by (nonlinear_arith)
                    requires
                        i + 1 <= m,
                        0 <= w,
                ;
                assert(records(f, n).subrange(i * w, i * w + w) =~= records(f, m).subrange(
                    i * w,
                    i * w + w,
                ));
            } else {
                assert(records(f, n).subrange(i * w, i * w + w) =~= f(i));
            }
        }
    } else {
        assert(n * w == 0) by (nonlinear_arith)
            requires
                n == 0,
        ;
    }
}

/// One entry as a page stores it: the stored key, then the value bytes or a page ordinal.
pub struct EntryBytes {
    /// The stored key bytes; empty on pages that omit them.
    pub key: Seq<u8>,
    /// The inline value, or the ordinal of the blob page or child.
    pub tail: Seq<u8>,
    /// Whether a leaf entry's tail is the ordinal of a blob page.
    pub overflow: bool,
}

impl EntryBytes {
    /// Bytes of payload.
    pub open spec fn len(self) -> nat {
        self.key.len() + self.tail.len()
    }
}

/// The payload of the first `n` entries.
pub open spec fn payload(entries: Seq<EntryBytes>, n: nat) -> Seq<u8>
    decreases n,
{
    if n == 0 {
        Seq::empty()
    } else {
        payload(entries, (n - 1) as nat) + (entries[n - 1].key + entries[n - 1].tail)
    }
}

/// Where an entry's payload stands.
pub proof fn lemma_payload(entries: Seq<EntryBytes>, n: nat, i: int)
    requires
        0 <= i < n,
    ensures
        payload(entries, (i + 1) as nat).len() == payload(entries, i as nat).len()
            + entries[i].len(),
        payload(entries, (i + 1) as nat).len() <= payload(entries, n).len(),
        payload(entries, n).subrange(
            payload(entries, i as nat).len() as int,
            payload(entries, (i + 1) as nat).len() as int,
        ) == entries[i].key + entries[i].tail,
    decreases n,
{
    let at = payload(entries, i as nat).len() as int;
    let end = payload(entries, (i + 1) as nat).len() as int;
    if i == n - 1 {
        assert(payload(entries, n).subrange(at, end) =~= entries[i].key + entries[i].tail);
    } else {
        lemma_payload(entries, (n - 1) as nat, i);
        assert(payload(entries, n).subrange(at, end) =~= payload(
            entries,
            (n - 1) as nat,
        ).subrange(at, end));
    }
}

/// The payload of the first entries does not depend on those after them.
pub proof fn lemma_payload_prefix(a: Seq<EntryBytes>, b: Seq<EntryBytes>, n: nat)
    requires
        n <= a.len(),
        n <= b.len(),
        forall|j: int| 0 <= j < n ==> a[j] == b[j],
    ensures
        payload(a, n) == payload(b, n),
    decreases n,
{
    if n > 0 {
        lemma_payload_prefix(a, b, (n - 1) as nat);
    }
}

/// A compact leaf slot decodes to the span it was made from.
proof fn lemma_compact_leaf_span(p: Seq<u8>, i: int, s: node::EntrySpan, next: int, next_slot: int)
    requires
        node::page_layout(p).compact_meta,
        0 <= s.offset,
        0 <= s.key_len,
        0 <= s.value_len,
        s.overflow ==> s.value_len == 8,
        next == s.offset + s.key_len + s.value_len,
        next < 0x8000,
        next_slot == next || next_slot == next + 0x8000,
        bytes::u16_at(p, node::meta_base(p) + 2 * i) == s.offset + (if s.overflow {
            0x8000int
        } else {
            0
        }),
        bytes::u16_at(p, node::meta_base(p) + 2 * (i + 1)) == next_slot,
        node::page_layout(p).omitted_keys ==> s.key_len == 0,
        !node::page_layout(p).omitted_keys ==> bytes::u16_at(
            p,
            node::meta_base(p) + 2 * (node::page_count(p) + 1) + 2 * i,
        ) == s.key_len,
    ensures
        node::leaf_span(p, i) == Some(s),
{
    let raw = bytes::u16_at(p, node::meta_base(p) + 2 * i);
    assert(raw % 0x8000 == s.offset);
    assert(next_slot % 0x8000 == next);
}

/// Everything a tree page holds.
pub struct PageModel {
    pub kind: NodeKind,
    pub layout: NodeLayout,
    pub left: Option<PageOrdinal>,
    pub right: Option<PageOrdinal>,
    pub slots: Seq<u64>,
    pub entries: Seq<EntryBytes>,
}

impl PageModel {
    /// Number of entries.
    pub open spec fn count(self) -> nat {
        self.entries.len()
    }

    /// Where the metadata area starts.
    pub open spec fn meta_at(self) -> int {
        DIGEST_BASE + 8 * self.slots.len()
    }

    /// Where the payload area starts.
    pub open spec fn payload_at(self) -> int {
        self.meta_at() + self.layout.meta_area(self.kind, self.count())
    }

    /// Bytes the page takes.
    pub open spec fn page_len(self) -> int {
        self.payload_at() + payload(self.entries, self.count()).len()
    }

    /// Where the payload of entry `i` starts.
    pub open spec fn offset(self, i: int) -> int {
        self.payload_at() + payload(self.entries, i as nat).len()
    }

    /// The kind word.
    pub open spec fn word(self) -> int {
        (if self.kind == NodeKind::Leaf {
            0
        } else {
            1int
        }) + self.layout.flags()
    }

    /// The 28 bytes every page starts with.
    pub open spec fn prefix(self) -> Seq<u8> {
        bytes::le4(self.page_len()) + bytes::le4(self.word()) + bytes::le4(self.count() as int)
            + bytes::le8(PageOrdinal::signed(self.left)) + bytes::le8(
            PageOrdinal::signed(self.right),
        )
    }

    /// The digest area.
    pub open spec fn digest_bytes(self) -> Seq<u8> {
        let slots = self.slots;
        records(|i: int| bytes::le8(slots[i] as int), slots.len())
    }

    /// Compact offset of entry `i`, with the overflow flag of a leaf entry.
    pub open spec fn compact_slot(self, i: int) -> int {
        self.offset(i) + (if self.kind == NodeKind::Leaf && i < self.count()
            && self.entries[i].overflow {
            0x8000int
        } else {
            0
        })
    }

    /// The length a classic leaf record stores.
    pub open spec fn stored_len(self, i: int) -> int {
        if self.entries[i].overflow {
            OVERFLOW_SENTINEL as int
        } else {
            self.entries[i].tail.len() as int
        }
    }

    /// The classic record of entry `i`.
    pub open spec fn classic_record(self, i: int) -> Seq<u8> {
        if self.kind == NodeKind::Leaf {
            bytes::le4(self.offset(i)) + bytes::le2(self.entries[i].key.len() as int) + bytes::le2(
                self.stored_len(i),
            )
        } else {
            bytes::le4(self.offset(i)) + bytes::le2(self.entries[i].key.len() as int)
        }
    }

    /// The compact offsets of the first `n` slots.
    pub open spec fn compact_slots(self, n: nat) -> Seq<u8> {
        records(|i: int| bytes::le2(self.compact_slot(i)), n)
    }

    /// The compact key lengths of the first `n` entries.
    pub open spec fn key_lens(self, n: nat) -> Seq<u8> {
        records(|i: int| bytes::le2(self.entries[i].key.len() as int), n)
    }

    /// The classic records of the first `n` entries.
    pub open spec fn classic_records(self, n: nat) -> Seq<u8> {
        records(|i: int| self.classic_record(i), n)
    }

    /// The metadata area.
    pub open spec fn meta_bytes(self) -> Seq<u8> {
        if !self.layout.compact_meta {
            self.classic_records(self.count())
        } else if self.kind == NodeKind::Leaf {
            if self.layout.omitted_keys {
                self.compact_slots(self.count() + 1)
            } else {
                self.compact_slots(self.count() + 1) + self.key_lens(self.count())
            }
        } else if self.layout.omitted_keys {
            Seq::empty()
        } else {
            self.compact_slots(self.count() + 1)
        }
    }

    /// The bytes of the page.
    pub open spec fn image(self) -> Seq<u8> {
        self.prefix() + self.digest_bytes() + self.meta_bytes() + payload(
            self.entries,
            self.count(),
        )
    }

    /// Whether an entry is one this kind of page can store.
    pub open spec fn entry_wf(self, i: int) -> bool {
        let e = self.entries[i];
        &&& e.key.len() <= 0xFFFF
        &&& self.layout.omitted_keys ==> e.key.len() == 0
        &&& self.kind == NodeKind::Internal ==> e.overflow
        &&& e.overflow ==> exists|o: PageOrdinal|
            #![trigger o.get()]
            o.get() < 0x8000_0000_0000_0000 && e.tail == bytes::le8(o.get() as int)
        &&& !e.overflow ==> e.tail.len() < 0xFFFF
    }

    /// Whether the page is one the format can store.
    pub open spec fn wf(self) -> bool {
        &&& self.layout.valid()
        &&& self.slots.len() == self.layout.slots(self.count())
        &&& forall|i: int| 0 <= i < self.count() ==> #[trigger] self.entry_wf(i)
        &&& self.page_len() <= 0x7FFF_FFFF
        &&& self.layout.compact_meta ==> self.page_len() <= MAX_COMPACT_PAGE_SIZE
        &&& self.left matches Some(o) ==> o.get() < 0x8000_0000_0000_0000
        &&& self.right matches Some(o) ==> o.get() < 0x8000_0000_0000_0000
    }

    /// The areas of the page have the sizes the layout says.
    pub proof fn lemma_areas(self)
        requires
            self.wf(),
        ensures
            self.prefix().len() == PAGE_PREFIX_LEN,
            self.digest_bytes().len() == 8 * self.slots.len(),
            self.meta_bytes().len() == self.layout.meta_area(self.kind, self.count()),
            self.image().len() == self.page_len(),
    {
        let slots = self.slots;
        lemma_records(|i: int| bytes::le8(slots[i] as int), slots.len(), 8, 0);
        lemma_records(|i: int| bytes::le2(self.compact_slot(i)), self.count() + 1, 2, 0);
        lemma_records(|i: int| bytes::le2(self.entries[i].key.len() as int), self.count(), 2, 0);
        if self.kind == NodeKind::Leaf {
            lemma_records(|i: int| self.classic_record(i), self.count(), 8, 0);
        } else {
            lemma_records(|i: int| self.classic_record(i), self.count(), 6, 0);
        }
    }

    /// The header of the page decodes.
    proof fn lemma_header(self)
        requires
            self.wf(),
        ensures
            node::page_ok(self.image()),
            node::page_kind(self.image()) == self.kind,
            node::page_layout(self.image()) == self.layout,
            node::page_count(self.image()) == self.count(),
            node::page_left(self.image()) == self.left,
            node::page_right(self.image()) == self.right,
            node::meta_base(self.image()) == self.meta_at(),
            node::payload_base(self.image()) == self.payload_at(),
    {
        self.lemma_areas();
        let p = self.image();
        assert(p.subrange(0, 4) =~= bytes::le4(self.page_len()));
        assert(p.subrange(4, 8) =~= bytes::le4(self.word()));
        assert(p.subrange(8, 12) =~= bytes::le4(self.count() as int));
        assert(p.subrange(12, 20) =~= bytes::le8(PageOrdinal::signed(self.left)));
        assert(p.subrange(20, 28) =~= bytes::le8(PageOrdinal::signed(self.right)));
        bytes::lemma_u32_read_back(p, 0, self.page_len());
        bytes::lemma_u32_read_back(p, KIND_OFFSET as int, self.word());
        bytes::lemma_u32_read_back(p, ENTRY_COUNT_OFFSET as int, self.count() as int);
        bytes::lemma_u64_read_back(p, LEFT_SIBLING_OFFSET as int, PageOrdinal::signed(self.left));
        bytes::lemma_u64_read_back(
            p,
            RIGHT_SIBLING_OFFSET as int,
            PageOrdinal::signed(self.right),
        );
        assert(self.count() <= self.page_len()) by {
            self.lemma_count_bound();
        }
        let w = self.word();
        assert(node::kind_word(p) == w);
        assert(w / 0x200 % 2 == (if self.layout.eytzinger {
            1int
        } else {
            0
        }));
        assert(w / 0x400 % 2 == (if self.layout.compact_meta {
            1int
        } else {
            0
        }));
        assert(w / 0x800 % 2 == (if self.layout.omitted_keys {
            1int
        } else {
            0
        }));
        assert(w % 0x100 == (if self.kind == NodeKind::Leaf {
            0int
        } else {
            1
        }));
        assert(w / 0x100 % 2 == 0);
        assert(w / 0x1000 == 0);
    }

    /// Every entry takes a digest slot, so the page is longer than it has entries.
    pub proof fn lemma_count_bound(self)
        requires
            self.slots.len() == self.layout.slots(self.count()),
        ensures
            8 * self.count() <= self.page_len(),
    {
        crate::format::eytzinger::lemma_complete_height(self.count());
    }

    /// The digests of the page decode.
    proof fn lemma_slots(self)
        requires
            self.wf(),
        ensures
            node::page_slots(self.image()) == self.slots,
    {
        self.lemma_areas();
        self.lemma_header();
        let p = self.image();
        let slots = self.slots;
        let f = |i: int| bytes::le8(slots[i] as int);
        assert forall|i: int| 0 <= i < slots.len() implies bytes::u64_at(p, DIGEST_BASE + 8 * i)
            == slots[i] by {
            lemma_records(f, slots.len(), 8, i);
            let at = DIGEST_BASE + 8 * i;
            assert(p.subrange(at, at + 8) =~= self.digest_bytes().subrange(i * 8, i * 8 + 8));
            bytes::lemma_u64_read_back(p, at, slots[i] as int);
        }
        assert(node::page_slots(p) =~= slots);
    }

    /// What entry `i` decodes to.
    pub open spec fn span(self, i: int) -> node::EntrySpan {
        let e = self.entries[i];
        node::EntrySpan {
            offset: self.offset(i),
            key_len: e.key.len() as int,
            value_len: e.tail.len() as int,
            overflow: e.overflow,
        }
    }

    /// Offsets stay inside the page and in order.
    pub proof fn lemma_offsets(self, i: int)
        requires
            self.wf(),
            0 <= i < self.count(),
        ensures
            self.payload_at() <= self.offset(i),
            self.offset(i + 1) == self.offset(i) + self.entries[i].len(),
            self.offset(i + 1) <= self.page_len(),
            self.offset(self.count() as int) == self.page_len(),
            self.image().subrange(self.offset(i), self.offset(i + 1)) == self.entries[i].key
                + self.entries[i].tail,
    {
        self.lemma_areas();
        lemma_payload(self.entries, self.count(), i);
        let all = payload(self.entries, self.count());
        let a = payload(self.entries, i as nat).len() as int;
        let b = payload(self.entries, (i + 1) as nat).len() as int;
        assert(self.image().subrange(self.offset(i), self.offset(i + 1)) =~= all.subrange(a, b));
    }

    /// The metadata of a compact leaf entry decodes.
    proof fn lemma_compact_slot(self, i: int)
        requires
            self.wf(),
            self.layout.compact_meta,
            self.kind == NodeKind::Leaf || !self.layout.omitted_keys,
            0 <= i <= self.count(),
        ensures
            bytes::u16_at(self.image(), self.meta_at() + 2 * i) == self.compact_slot(i),
            self.offset(i) <= self.page_len(),
    {
        self.lemma_areas();
        let p = self.image();
        let f = |j: int| bytes::le2(self.compact_slot(j));
        lemma_records(f, self.count() + 1, 2, i);
        let at = self.meta_at() + 2 * i;
        assert(p.subrange(at, at + 2) =~= self.compact_slots(self.count() + 1).subrange(
            i * 2,
            i * 2 + 2,
        ));
        bytes::lemma_u16_read_back(p, at, self.compact_slot(i));
        if i < self.count() {
            self.lemma_offsets(i);
        }
    }

    /// The compact key lengths of a leaf decode.
    proof fn lemma_key_len(self, i: int)
        requires
            self.wf(),
            self.kind == NodeKind::Leaf,
            self.layout.compact_meta,
            !self.layout.omitted_keys,
            0 <= i < self.count(),
        ensures
            bytes::u16_at(self.image(), self.meta_at() + 2 * (self.count() + 1) + 2 * i)
                == self.entries[i].key.len(),
    {
        self.lemma_areas();
        assert(self.entry_wf(i));
        let p = self.image();
        let f = |j: int| bytes::le2(self.entries[j].key.len() as int);
        lemma_records(f, self.count(), 2, i);
        let at = self.meta_at() + 2 * (self.count() + 1) + 2 * i;
        lemma_records(|j: int| bytes::le2(self.compact_slot(j)), self.count() + 1, 2, 0);
        assert(p.subrange(at, at + 2) =~= self.key_lens(self.count()).subrange(i * 2, i * 2 + 2));
        bytes::lemma_u16_read_back(p, at, self.entries[i].key.len() as int);
    }

    /// The classic record of a leaf entry decodes.
    proof fn lemma_classic_leaf(self, i: int)
        requires
            self.wf(),
            self.kind == NodeKind::Leaf,
            !self.layout.compact_meta,
            0 <= i < self.count(),
        ensures
            bytes::i32_at(self.image(), self.meta_at() + 8 * i) == self.offset(i),
            bytes::u16_at(self.image(), self.meta_at() + 8 * i + 4) == self.entries[i].key.len(),
            bytes::u16_at(self.image(), self.meta_at() + 8 * i + 6) == self.stored_len(i),
    {
        self.lemma_areas();
        self.lemma_offsets(i);
        assert(self.entry_wf(i));
        let p = self.image();
        let e = self.entries[i];
        let f = |j: int| self.classic_record(j);
        lemma_records(f, self.count(), 8, i);
        let at = self.meta_at() + 8 * i;
        let record = self.classic_record(i);
        assert(p.subrange(at, at + 8) =~= self.meta_bytes().subrange(i * 8, i * 8 + 8));
        assert(p.subrange(at, at + 8) == record);
        assert(p.subrange(at, at + 4) =~= record.subrange(0, 4));
        assert(p.subrange(at + 4, at + 6) =~= record.subrange(4, 6));
        assert(p.subrange(at + 6, at + 8) =~= record.subrange(6, 8));
        assert(record.subrange(0, 4) =~= bytes::le4(self.offset(i)));
        assert(record.subrange(4, 6) =~= bytes::le2(e.key.len() as int));
        assert(record.subrange(6, 8) =~= bytes::le2(self.stored_len(i)));
        bytes::lemma_u32_read_back(p, at, self.offset(i));
        bytes::lemma_u16_read_back(p, at + 4, e.key.len() as int);
        bytes::lemma_u16_read_back(p, at + 6, self.stored_len(i));
    }

    /// The metadata of a leaf entry decodes.
    proof fn lemma_leaf_span(self, i: int)
        requires
            self.wf(),
            self.kind == NodeKind::Leaf,
            0 <= i < self.count(),
        ensures
            node::leaf_span(self.image(), i) == Some(self.span(i)),
    {
        self.lemma_header();
        self.lemma_offsets(i);
        assert(self.entry_wf(i));
        if self.layout.compact_meta {
            self.lemma_compact_slot(i);
            self.lemma_compact_slot(i + 1);
            if !self.layout.omitted_keys {
                self.lemma_key_len(i);
            }
            lemma_compact_leaf_span(
                self.image(),
                i,
                self.span(i),
                self.offset(i + 1),
                self.compact_slot(i + 1),
            );
        } else {
            self.lemma_classic_leaf(i);
        }
    }

    /// The metadata of an internal entry decodes.
    proof fn lemma_internal_span(self, i: int)
        requires
            self.wf(),
            self.kind == NodeKind::Internal,
            0 <= i < self.count(),
        ensures
            node::internal_span(self.image(), i) == Some(self.span(i)),
    {
        self.lemma_areas();
        self.lemma_header();
        self.lemma_offsets(i);
        assert(self.entry_wf(i));
        let p = self.image();
        let e = self.entries[i];
        if self.layout.compact_meta {
            if self.layout.omitted_keys {
                self.lemma_dense(i);
            } else {
                self.lemma_compact_slot(i);
                self.lemma_compact_slot(i + 1);
            }
        } else {
            let f = |j: int| self.classic_record(j);
            lemma_records(f, self.count(), 6, i);
            let at = self.meta_at() + 6 * i;
            let record = self.classic_record(i);
            assert(p.subrange(at, at + 6) =~= record);
            assert(p.subrange(at, at + 4) =~= record.subrange(0, 4));
            assert(p.subrange(at + 4, at + 6) =~= record.subrange(4, 6));
            assert(record.subrange(0, 4) =~= bytes::le4(self.offset(i)));
            assert(record.subrange(4, 6) =~= bytes::le2(e.key.len() as int));
            bytes::lemma_u32_read_back(p, at, self.offset(i));
            bytes::lemma_u16_read_back(p, at + 4, e.key.len() as int);
        }
    }

    /// Without keys and metadata, children are a dense array.
    proof fn lemma_dense(self, i: int)
        requires
            self.wf(),
            self.kind == NodeKind::Internal,
            self.layout.omitted_keys,
            0 <= i <= self.count(),
        ensures
            payload(self.entries, i as nat).len() == 8 * i,
        decreases i,
    {
        if i > 0 {
            self.lemma_dense(i - 1);
            assert(self.entry_wf(i - 1));
        }
    }

    /// The page ordinal an entry's tail stores.
    pub open spec fn target(self, i: int) -> PageOrdinal {
        choose|o: PageOrdinal|
            #![trigger o.get()]
            o.get() < 0x8000_0000_0000_0000 && self.entries[i].tail == bytes::le8(o.get() as int)
    }

    /// Decoding a page gives back what was put into it: the header, the digests, and for
    /// each entry its key and its value or page.
    pub proof fn lemma_decodes(self)
        requires
            self.wf(),
        ensures
            self.image().len() == self.page_len(),
            node::page_ok(self.image()),
            node::entries_ok(self.image()),
            node::page_kind(self.image()) == self.kind,
            node::page_layout(self.image()) == self.layout,
            node::page_count(self.image()) == self.count(),
            node::page_left(self.image()) == self.left,
            node::page_right(self.image()) == self.right,
            node::page_slots(self.image()) == self.slots,
            forall|i: int|
                0 <= i < self.count() ==> #[trigger] node::entry_key_at(self.image(), i)
                    == self.entries[i].key,
            forall|i: int|
                0 <= i < self.count() && self.kind == NodeKind::Internal ==> (
                #[trigger] node::internal_entry_at(self.image(), i) matches Some(e) && bytes::le8(
                    e.child.get() as int,
                ) == self.entries[i].tail),
            forall|i: int|
                0 <= i < self.count() && self.kind == NodeKind::Leaf ==> (
                #[trigger] node::leaf_entry_at(self.image(), i) matches Some(e) && match e.value {
                    node::LeafValue::Inline { offset, len } => !self.entries[i].overflow
                        && self.image().subrange(offset as int, offset + len)
                        == self.entries[i].tail && offset == self.offset(i)
                        + self.entries[i].key.len() && len == self.entries[i].tail.len() && offset
                        >= PAGE_PREFIX_LEN && offset + len <= self.image().len(),
                    node::LeafValue::Overflow { page } => self.entries[i].overflow && bytes::le8(
                        page.get() as int,
                    ) == self.entries[i].tail && page.get() < 0x8000_0000_0000_0000,
                }),
    {
        self.lemma_areas();
        self.lemma_header();
        self.lemma_slots();
        let p = self.image();
        assert forall|i: int| 0 <= i < self.count() implies self.decoded(i) by {
            self.lemma_entry(i);
        }
        assert forall|i: int| 0 <= i < self.count() implies #[trigger] node::entry_ok(p, i) by {
            assert(self.decoded(i));
        }
        assert forall|i: int| 0 <= i < self.count() implies #[trigger] node::entry_key_at(p, i)
            == self.entries[i].key by {
            assert(self.decoded(i));
        }
        assert forall|i: int|
            0 <= i < self.count() && self.kind == NodeKind::Internal implies (
        #[trigger] node::internal_entry_at(p, i) matches Some(e) && bytes::le8(
            e.child.get() as int,
        ) == self.entries[i].tail) by {
            assert(self.decoded(i));
        }
        assert forall|i: int|
            0 <= i < self.count() && self.kind == NodeKind::Leaf implies (
        #[trigger] node::leaf_entry_at(p, i) matches Some(e) && match e.value {
            node::LeafValue::Inline { offset, len } => !self.entries[i].overflow && p.subrange(
                offset as int,
                offset + len,
            ) == self.entries[i].tail && offset == self.offset(i) + self.entries[i].key.len()
                && len == self.entries[i].tail.len() && offset >= PAGE_PREFIX_LEN && offset + len
                <= p.len(),
            node::LeafValue::Overflow { page } => self.entries[i].overflow && bytes::le8(
                page.get() as int,
            ) == self.entries[i].tail && page.get() < 0x8000_0000_0000_0000,
        }) by {
            assert(self.decoded(i));
        }
    }

    /// Entry `i` decodes.
    spec fn decoded(self, i: int) -> bool {
        let p = self.image();
        &&& node::entry_ok(p, i)
        &&& node::entry_key_at(p, i) == self.entries[i].key
        &&& self.kind == NodeKind::Internal ==> (node::internal_entry_at(p, i) matches Some(e)
            && bytes::le8(e.child.get() as int) == self.entries[i].tail)
        &&& self.kind == NodeKind::Leaf ==> (node::leaf_entry_at(p, i) matches Some(e)
            && match e.value {
            node::LeafValue::Inline { offset, len } => !self.entries[i].overflow && p.subrange(
                offset as int,
                offset + len,
            ) == self.entries[i].tail && offset == self.offset(i) + self.entries[i].key.len()
                && len == self.entries[i].tail.len() && offset >= PAGE_PREFIX_LEN && offset + len
                <= p.len(),
            node::LeafValue::Overflow { page } => self.entries[i].overflow && bytes::le8(
                page.get() as int,
            ) == self.entries[i].tail && page.get() < 0x8000_0000_0000_0000,
        })
    }

    proof fn lemma_entry(self, i: int)
        requires
            self.wf(),
            0 <= i < self.count(),
        ensures
            self.decoded(i),
    {
        self.lemma_areas();
        self.lemma_header();
        self.lemma_offsets(i);
        assert(self.entry_wf(i));
        let p = self.image();
        let e = self.entries[i];
        let s = self.span(i);
        let whole = p.subrange(s.offset, s.offset + e.len());
        assert(p.subrange(s.offset, s.offset + s.key_len) =~= whole.subrange(0, s.key_len));
        assert(whole.subrange(0, s.key_len) =~= e.key);
        let at = s.offset + s.key_len;
        assert(p.subrange(at, at + s.value_len) =~= whole.subrange(
            s.key_len,
            s.key_len + s.value_len,
        ));
        assert(whole.subrange(s.key_len, s.key_len + s.value_len) =~= e.tail);
        if e.overflow {
            let o = self.target(i);
            bytes::lemma_u64_read_back(p, at, o.get() as int);
        }
        if self.kind == NodeKind::Leaf {
            self.lemma_leaf_span(i);
        } else {
            self.lemma_internal_span(i);
        }
    }

    /// Patching the right sibling of a page into its bytes gives the page with that
    /// sibling.
    pub proof fn lemma_patch_right(self, right: Option<PageOrdinal>)
        requires
            self.wf(),
        ensures
            ({
                let p = self.image();
                let patched = PageModel { right, ..self };
                p.len() >= PAGE_PREFIX_LEN && patched.image() == p.subrange(
                    0,
                    RIGHT_SIBLING_OFFSET as int,
                ) + bytes::le8(PageOrdinal::signed(right)) + p.subrange(
                    PAGE_PREFIX_LEN as int,
                    p.len() as int,
                )
            }),
    {
        self.lemma_areas();
        let p = self.image();
        let patched = PageModel { right, ..self };
        assert(patched.digest_bytes() == self.digest_bytes());
        assert(patched.count() == self.count());
        assert forall|i: int| patched.offset(i) == self.offset(i) by {}
        assert forall|i: int| patched.compact_slot(i) == self.compact_slot(i) by {}
        assert((|i: int| bytes::le2(patched.compact_slot(i))) =~= (|i: int|
            bytes::le2(self.compact_slot(i))));
        assert((|i: int| bytes::le2(patched.entries[i].key.len() as int)) =~= (|i: int|
            bytes::le2(self.entries[i].key.len() as int)));
        assert forall|i: int| patched.classic_record(i) == self.classic_record(i) by {}
        assert((|i: int| patched.classic_record(i)) =~= (|i: int| self.classic_record(i)));
        assert(patched.meta_bytes() == self.meta_bytes());
        assert(patched.image() =~= p.subrange(0, RIGHT_SIBLING_OFFSET as int) + bytes::le8(
            PageOrdinal::signed(right),
        ) + p.subrange(PAGE_PREFIX_LEN as int, p.len() as int));
    }
}

/// The entries of a page that is being put together: sizes, payload, digests.
///
/// The payload is the stored keys and the values or ordinals, one entry after the other,
/// and the sizes say where one ends and the next begins.
pub struct PageParts {
    pub payload: Vec<u8>,
    /// `(stored key length, inline payload length)` per entry.
    pub sizes: Vec<(usize, usize)>,
    pub overflow: Vec<Option<PageRef>>,
    pub digests: Vec<u64>,
    pub entries: Ghost<Seq<EntryBytes>>,
}

impl PageParts {
    /// Whether the parts are those of the entries they stand for.
    pub open spec fn wf(&self) -> bool {
        let n = self.entries@.len();
        &&& self.sizes@.len() == n
        &&& self.overflow@.len() == n
        &&& self.digests@.len() == n
        &&& self.payload@ == payload(self.entries@, n)
        &&& forall|i: int|
            0 <= i < n ==> (#[trigger] self.sizes@[i]).0 == self.entries@[i].key.len()
                && self.sizes@[i].1 == self.entries@[i].tail.len()
    }

    /// No entries.
    pub fn new() -> (r: PageParts)
        ensures
            r.wf(),
            r.entries@.len() == 0,
    {
        PageParts {
            payload: Vec::new(),
            sizes: Vec::new(),
            overflow: Vec::new(),
            digests: Vec::new(),
            entries: Ghost(Seq::empty()),
        }
    }

    /// Number of entries.
    pub fn len(&self) -> (r: usize)
        requires
            self.wf(),
        ensures
            r == self.entries@.len(),
    {
        self.sizes.len()
    }

    /// Adds an entry.
    pub fn add(
        &mut self,
        digest: u64,
        key: &[u8],
        tail: &[u8],
        reference: Option<PageRef>,
        Ghost(overflow): Ghost<bool>,
    )
        requires
            old(self).wf(),
        ensures
            final(self).wf(),
            final(self).entries@ == old(self).entries@.push(
                EntryBytes { key: key@, tail: tail@, overflow },
            ),
            final(self).digests@ == old(self).digests@.push(digest),
            final(self).overflow@ == old(self).overflow@.push(reference),
            final(self).sizes@ == old(self).sizes@.push((key@.len() as usize, tail@.len() as usize)),
            final(self).payload@.len() == old(self).payload@.len() + key@.len() + tail@.len(),
    {
        let ghost before = self.entries@;
        let ghost after = before.push(EntryBytes { key: key@, tail: tail@, overflow });
        self.digests.push(digest);
        put_slice(&mut self.payload, key);
        put_slice(&mut self.payload, tail);
        self.sizes.push((key.len(), tail.len()));
        self.overflow.push(reference);
        self.entries = Ghost(after);
        proof {
            lemma_payload_prefix(before, after, before.len());
            assert(self.payload@ =~= payload(after, after.len()));
        }
    }
}

/// The digests a page stores for these sorted digests.
pub open spec fn slots_ok(layout: NodeLayout, slots: Seq<u64>, digests: Seq<u64>) -> bool {
    &&& slots.len() == layout.slots(digests.len())
    &&& layout.eytzinger ==> eytzinger::in_order(slots) == eytzinger::padded(digests, slots.len())
    &&& !layout.eytzinger ==> slots == digests
}

/// Puts the digests in the order a page stores them in.
fn arrange_digests(layout: NodeLayout, digests: &Vec<u64>) -> (slots: Vec<u64>)
    requires
        8 * layout.slots(digests@.len()) <= usize::MAX,
    ensures
        slots_ok(layout, slots@, digests@),
{
    let n = layout.digest_slots(digests.len());
    let mut slots: Vec<u64> = Vec::new();
    if layout.eytzinger {
        let mut i: usize = 0;
        while i < n
            invariant
                i <= n,
                slots@.len() == i,
            decreases n - i,
        {
            slots.push(u64::MAX);
            i += 1;
        }
        proof {
            eytzinger::lemma_complete_height(digests@.len());
            assert(eytzinger::is_complete(n as int));
        }
        eytzinger::scatter_eytzinger(digests.as_slice(), &mut slots);
    } else {
        let mut i: usize = 0;
        while i < n
            invariant
                i <= n,
                n == digests@.len(),
                slots@ == digests@.subrange(0, i as int),
            decreases n - i,
        {
            slots.push(digests[i]);
            i += 1;
            proof {
                assert(slots@ =~= digests@.subrange(0, i as int));
            }
        }
        proof {
            assert(slots@ =~= digests@);
        }
    }
    slots
}

/// The model of a page put together from these parts.
pub open spec fn model_of(
    kind: NodeKind,
    layout: NodeLayout,
    left: Option<PageOrdinal>,
    slots: Seq<u64>,
    parts: PageParts,
) -> PageModel {
    PageModel { kind, layout, left, right: None, slots, entries: parts.entries@ }
}

/// Appends the compact offset slots.
fn put_compact_slots(
    page: &mut Vec<u8>,
    parts: &PageParts,
    is_leaf: bool,
    payload_base: usize,
    Ghost(m): Ghost<PageModel>,
)
    requires
        parts.wf(),
        m.entries == parts.entries@,
        m.wf(),
        m.layout.compact_meta,
        is_leaf == (m.kind == NodeKind::Leaf),
        payload_base == m.payload_at(),
        forall|i: int|
            0 <= i < m.count() && is_leaf ==> (#[trigger] parts.overflow@[i] is Some
                <==> m.entries[i].overflow),
    ensures
        final(page)@ == old(page)@ + m.compact_slots(m.count() + 1),
{
    let ghost f = |i: int| bytes::le2(m.compact_slot(i));
    let ghost start = page@;
    let n = parts.sizes.len();
    let mut offset: usize = payload_base;
    let mut i: usize = 0;
    while i < n
        invariant
            parts.wf(),
            m.entries == parts.entries@,
            m.wf(),
            m.layout.compact_meta,
            is_leaf == (m.kind == NodeKind::Leaf),
            n == m.count(),
            i <= n,
            f == (|i: int| bytes::le2(m.compact_slot(i))),
            offset == m.offset(i as int),
            offset <= m.page_len(),
            page@ == start + records(f, i as nat),
            forall|j: int|
                0 <= j < m.count() && is_leaf ==> (#[trigger] parts.overflow@[j] is Some
                    <==> m.entries[j].overflow),
        decreases n - i,
    {
        proof {
            lemma_payload(m.entries, m.count(), i as int);
            assert(parts.sizes@[i as int].0 == m.entries[i as int].key.len());
        }
        let (key_len, payload_len) = parts.sizes[i];
        let flag: u64 = if is_leaf && parts.overflow[i].is_some() {
            COMPACT_OVERFLOW_BIT as u64
        } else {
            0
        };
        put_le2(page, offset as u64 + flag);
        offset = offset + key_len + payload_len;
        i += 1;
        proof {
            assert(page@ =~= start + records(f, i as nat));
        }
    }
    put_le2(page, offset as u64);
    proof {
        assert(m.compact_slot(n as int) == offset);
        assert(page@ =~= start + records(f, (n + 1) as nat));
    }
}

/// Appends the compact key lengths.
fn put_key_lens(page: &mut Vec<u8>, parts: &PageParts, Ghost(m): Ghost<PageModel>)
    requires
        parts.wf(),
        m.entries == parts.entries@,
    ensures
        final(page)@ == old(page)@ + m.key_lens(m.count()),
{
    let ghost f = |i: int| bytes::le2(m.entries[i].key.len() as int);
    let ghost start = page@;
    let n = parts.sizes.len();
    let mut i: usize = 0;
    while i < n
        invariant
            parts.wf(),
            m.entries == parts.entries@,
            n == m.count(),
            i <= n,
            f == (|i: int| bytes::le2(m.entries[i].key.len() as int)),
            page@ == start + records(f, i as nat),
        decreases n - i,
    {
        proof {
            assert(parts.sizes@[i as int].0 == m.entries[i as int].key.len());
        }
        put_le2(page, parts.sizes[i].0 as u64);
        i += 1;
        proof {
            assert(page@ =~= start + records(f, i as nat));
        }
    }
}

/// Appends the classic records.
fn put_classic_records(
    page: &mut Vec<u8>,
    parts: &PageParts,
    is_leaf: bool,
    payload_base: usize,
    Ghost(m): Ghost<PageModel>,
)
    requires
        parts.wf(),
        m.entries == parts.entries@,
        m.wf(),
        !m.layout.compact_meta,
        is_leaf == (m.kind == NodeKind::Leaf),
        payload_base == m.payload_at(),
        forall|i: int|
            0 <= i < m.count() && is_leaf ==> (#[trigger] parts.overflow@[i] is Some
                <==> m.entries[i].overflow),
    ensures
        final(page)@ == old(page)@ + m.classic_records(m.count()),
{
    let ghost f = |i: int| m.classic_record(i);
    let ghost start = page@;
    let n = parts.sizes.len();
    let mut offset: usize = payload_base;
    let mut i: usize = 0;
    while i < n
        invariant
            parts.wf(),
            m.entries == parts.entries@,
            m.wf(),
            is_leaf == (m.kind == NodeKind::Leaf),
            n == m.count(),
            i <= n,
            f == (|i: int| m.classic_record(i)),
            offset == m.offset(i as int),
            offset <= m.page_len(),
            page@ == start + records(f, i as nat),
            forall|j: int|
                0 <= j < m.count() && is_leaf ==> (#[trigger] parts.overflow@[j] is Some
                    <==> m.entries[j].overflow),
        decreases n - i,
    {
        let ghost here = page@;
        proof {
            lemma_payload(m.entries, m.count(), i as int);
            assert(parts.sizes@[i as int].0 == m.entries[i as int].key.len());
            assert(m.entry_wf(i as int));
        }
        let (key_len, payload_len) = parts.sizes[i];
        put_le4(page, offset as u64);
        put_le2(page, key_len as u64);
        if is_leaf {
            let stored: u64 = if parts.overflow[i].is_some() {
                OVERFLOW_SENTINEL as u64
            } else {
                payload_len as u64
            };
            put_le2(page, stored);
        }
        offset = offset + key_len + payload_len;
        i += 1;
        proof {
            assert(page@ =~= here + f(i - 1));
            assert(page@ =~= start + records(f, i as nat));
        }
    }
}

/// Encodes a page from its parts.
pub fn encode_page(
    kind: NodeKind,
    layout: NodeLayout,
    left: Option<PageOrdinal>,
    parts: &PageParts,
) -> (r: (Vec<u8>, Ghost<Seq<u64>>))
    requires
        parts.wf(),
        forall|slots: Seq<u64>|
            slots.len() == layout.slots(parts.entries@.len()) ==> #[trigger] model_of(
                kind,
                layout,
                left,
                slots,
                *parts,
            ).wf(),
        forall|i: int|
            0 <= i < parts.entries@.len() && kind == NodeKind::Leaf ==> (
            #[trigger] parts.overflow@[i] is Some <==> parts.entries@[i].overflow),
    ensures
        slots_ok(layout, r.1@, parts.digests@),
        model_of(kind, layout, left, r.1@, *parts).wf(),
        r.0@ == model_of(kind, layout, left, r.1@, *parts).image(),
{
    let ghost probe: Seq<u64> = Seq::new(layout.slots(parts.entries@.len()), |i: int| 0u64);
    proof {
        assert(model_of(kind, layout, left, probe, *parts).wf());
    }
    let slots = arrange_digests(layout, &parts.digests);
    let ghost m = model_of(kind, layout, left, slots@, *parts);
    proof {
        assert(m.wf());
        m.lemma_count_bound();
        m.lemma_areas();
    }
    let n = parts.sizes.len();
    let is_leaf = match kind {
        NodeKind::Leaf => true,
        NodeKind::Internal => false,
    };
    let meta_base = DIGEST_BASE + 8 * slots.len();
    let meta_area = match kind {
        NodeKind::Leaf => layout.leaf_meta_size(n),
        NodeKind::Internal => layout.internal_meta_size(n),
    };
    let payload_base = match meta_area {
        Some(area) => meta_base + area,
        None => 0,
    };
    let page_len = payload_base + parts.payload.len();
    let word = (if is_leaf {
        0
    } else {
        1
    }) + layout.flag_bits();
    let mut page: Vec<u8> = Vec::new();
    put_le4(&mut page, page_len as u64);
    put_le4(&mut page, word as u64);
    put_le4(&mut page, n as u64);
    put_i64(&mut page, PageOrdinal::to_i64(left));
    put_i64(&mut page, -1);
    proof {
        assert(page@ =~= m.prefix());
    }
    let ghost f = |i: int| bytes::le8(slots@[i] as int);
    let mut i: usize = 0;
    while i < slots.len()
        invariant
            i <= slots@.len(),
            f == (|i: int| bytes::le8(slots@[i] as int)),
            page@ == m.prefix() + records(f, i as nat),
        decreases slots@.len() - i,
    {
        put_le8(&mut page, slots[i]);
        i += 1;
        proof {
            assert(page@ =~= m.prefix() + records(f, i as nat));
        }
    }
    proof {
        assert(page@ == m.prefix() + m.digest_bytes());
    }
    if layout.compact_meta {
        if is_leaf || !layout.omitted_keys {
            put_compact_slots(&mut page, parts, is_leaf, payload_base, Ghost(m));
            if is_leaf && !layout.omitted_keys {
                put_key_lens(&mut page, parts, Ghost(m));
            }
        }
        // An internal page with omitted keys has no metadata area at all: the payload is
        // a dense array of child ordinals.
    } else {
        put_classic_records(&mut page, parts, is_leaf, payload_base, Ghost(m));
    }
    proof {
        assert(page@ =~= m.prefix() + m.digest_bytes() + m.meta_bytes());
    }
    put_slice(&mut page, parts.payload.as_slice());
    (page, Ghost(slots@))
}

} // verus!

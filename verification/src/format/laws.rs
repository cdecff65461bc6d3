//! What is where in a file, byte by byte.

use vstd::arithmetic::power2::*;
use vstd::prelude::*;
use vstd::utf8::*;

use super::bytes;
use super::catalog::{self, IndexModel, Outcome, ValueKind};
use super::eytzinger;
use super::header::{self, Header, HeaderParse};
use super::node::{self, LeafValue, NodeKind, NodeLayout};
use super::pageref::{self, PageRef};
use super::PageOrdinal;

verus! {

broadcast use super::group_format;

/// What the bytes of a header say, and which of them make one.
pub proof fn lemma_header_bytes(s: Seq<u8>)
    requires
        s.len() >= 26,
    ensures
        ({
            let size = s[8] + 0x100 * s[9] + 0x1_0000 * s[10] + 0x100_0000 * s[11];
            let pages = s[14] + 0x100 * s[15] + 0x1_0000 * s[16] + 0x100_0000 * s[17];
            let directory = s[18] + 0x100 * s[19] + 0x1_0000 * s[20] + 0x100_0000 * s[21]
                + 0x1_0000_0000 * s[22] + 0x100_0000_0000 * s[23] + 0x1_0000_0000_0000 * s[24]
                + 0x100_0000_0000_0000 * s[25];
            let known = s[0] == 68 && s[1] == 82 && s[2] == 89 && s[3] == 0 && s[4] == 1 && s[5]
                == 4;
            match header::header_at(s) {
                HeaderParse::Valid(h) => {
                    &&& known
                    &&& 28 <= size < 0x8000_0000
                    &&& pages < 0x8000_0000
                    &&& 0 < directory < 0x8000_0000_0000_0000
                    &&& h.major_version == 1
                    &&& h.minor_version == 4
                    &&& h.page_filter_count == s[6] + 0x100 * s[7]
                    &&& h.page_size == size
                    &&& h.table_count == s[12] + 0x100 * s[13]
                    &&& h.page_count == pages
                    &&& h.page_directory_position.get() == directory
                },
                HeaderParse::Unsupported => !known,
                HeaderParse::Corrupt => known && !(28 <= size < 0x8000_0000 && pages < 0x8000_0000
                    && 0 < directory < 0x8000_0000_0000_0000),
            }
        }),
{
    bytes::lemma_numbers(s, 6);
    bytes::lemma_numbers(s, 8);
    bytes::lemma_numbers(s, 12);
    bytes::lemma_numbers(s, 14);
    bytes::lemma_numbers(s, 18);
    let front = s.subrange(0, 4);
    assert(front[0] == s[0] && front[1] == s[1] && front[2] == s[2] && front[3] == s[3]);
    if s[0] == 68 && s[1] == 82 && s[2] == 89 && s[3] == 0 {
        assert(front =~= super::MAGIC@);
    }
}

/// Fewer bytes than a header has are no header.
pub proof fn lemma_short_header(s: Seq<u8>)
    requires
        s.len() < 26,
    ensures
        header::header_at(s) is Unsupported,
{
}

/// What a header is written as is read as the header.
pub proof fn lemma_header_written(h: Header)
    requires
        h.valid(),
    ensures
        h.bytes().len() == 26,
        header::header_at(h.bytes()) == HeaderParse::Valid(h),
{
    h.lemma_round_trip(Seq::empty());
    assert(h.bytes() + Seq::<u8>::empty() =~= h.bytes());
}

/// What the prefix of a page says: how long it is, whether it is a leaf, how it is laid out, how
/// many entries it has, and which pages are beside it.
pub proof fn lemma_page_prefix(p: Seq<u8>)
    requires
        node::page_ok(p),
    ensures
        p.len() >= 28,
        p.len() == p[0] + 0x100 * p[1] + 0x1_0000 * p[2] + 0x100_0000 * p[3],
        node::page_kind(p) == (if p[4] == 0 {
            NodeKind::Leaf
        } else {
            NodeKind::Internal
        }),
        p[4] <= 1,
        p[5] % 2 == 0,
        p[5] < 0x10,
        p[6] == 0,
        p[7] == 0,
        node::page_layout(p).eytzinger <==> p[5] / 2 % 2 == 1,
        node::page_layout(p).compact_meta <==> p[5] / 4 % 2 == 1,
        node::page_layout(p).omitted_keys <==> p[5] / 8 == 1,
        node::page_layout(p).omitted_keys ==> node::page_layout(p).compact_meta
            && !node::page_layout(p).eytzinger,
        node::page_layout(p).compact_meta ==> p.len() < 0x8000,
        node::page_count(p) == p[8] + 0x100 * p[9] + 0x1_0000 * p[10] + 0x100_0000 * p[11],
        match node::page_left(p) {
            Some(o) => o.get() == bytes::u64_at(p, 12) && p[19] < 0x80,
            None => forall|i: int| 12 <= i < 20 ==> #[trigger] p[i] == 0xFF,
        },
        match node::page_right(p) {
            Some(o) => o.get() == bytes::u64_at(p, 20) && p[27] < 0x80,
            None => forall|i: int| 20 <= i < 28 ==> #[trigger] p[i] == 0xFF,
        },
{
    bytes::lemma_numbers(p, 0);
    bytes::lemma_numbers(p, 4);
    bytes::lemma_numbers(p, 8);
    bytes::lemma_numbers(p, 12);
    bytes::lemma_numbers(p, 20);
    let w = node::kind_word(p);
    assert(w == p[4] + 0x100 * p[5] + 0x1_0000 * p[6] + 0x100_0000 * p[7]);
    assert(p[6] == 0 && p[7] == 0);
    assert(w / 0x100 == p[5]);
    assert(w / 0x200 == p[5] / 2);
    assert(w / 0x400 == p[5] / 4);
    assert(w / 0x800 == p[5] / 8);
    assert(w % 0x100 == p[4]);
}

/// How much of a page is taken up before its entries' keys and values: the prefix, eight bytes
/// of digest for each slot, and what the layout keeps of each entry.
pub proof fn lemma_page_areas(p: Seq<u8>)
    ensures
        ({
            let (l, n) = (node::page_layout(p), node::page_count(p));
            let leaf = node::page_kind(p) == NodeKind::Leaf;
            let slots = if l.eytzinger {
                eytzinger::complete(n)
            } else {
                n
            };
            &&& node::page_digests(p).len() == slots
            &&& node::meta_base(p) == 28 + 8 * slots
            &&& node::payload_base(p) == node::meta_base(p) + (if leaf && !l.compact_meta {
                8 * n
            } else if leaf && !l.omitted_keys {
                4 * n + 2
            } else if leaf {
                2 * n + 2
            } else if !l.compact_meta {
                6 * n
            } else if !l.omitted_keys {
                2 * n + 2
            } else {
                0
            })
        }),
{
}

/// The digests of a page, where they are not in tree order, follow its prefix in order.
pub proof fn lemma_digests_in_order(p: Seq<u8>, i: int)
    requires
        !node::page_layout(p).eytzinger,
        0 <= i < node::page_count(p),
    ensures
        node::page_digests(p)[i] == bytes::u64_at(p, 28 + 8 * i),
{
}

/// Digests in tree order have the middle one first, and the middles of its two halves behind it.
pub proof fn lemma_tree_order(slots: Seq<u64>, h: nat)
    requires
        slots.len() + 1 == pow2(h),
        h >= 1,
    ensures
        eytzinger::in_order(slots).len() == slots.len(),
        eytzinger::in_order(slots)[pow2((h - 1) as nat) - 1] == slots[0],
        h >= 2 ==> eytzinger::in_order(slots)[pow2((h - 2) as nat) - 1] == slots[1],
        h >= 2 ==> eytzinger::in_order(slots)[pow2((h - 1) as nat) + pow2((h - 2) as nat) - 1]
            == slots[2],
{
    let n = slots.len();
    lemma_pow2_unfold(h);
    lemma_pow2_pos((h - 1) as nat);
    lemma_height_of(n, h);
    if h >= 2 {
        lemma_pow2_unfold((h - 1) as nat);
        lemma_pow2_pos((h - 2) as nat);
        reveal_with_fuel(eytzinger::node_at, 3);
    }
}

proof fn lemma_height_of(n: nat, h: nat)
    requires
        n + 1 == pow2(h),
    ensures
        eytzinger::height(n) == h,
    decreases h,
{
    if h == 0 {
        lemma2_to64();
    } else {
        lemma_pow2_unfold(h);
        lemma_pow2_pos((h - 1) as nat);
        assert(n / 2 + 1 == pow2((h - 1) as nat));
        lemma_height_of(n / 2, (h - 1) as nat);
    }
}

/// A leaf entry that is kept in full: four bytes of where it starts, two of how long its key is,
/// and two of how long its value is, or all ones where the value is on a page of its own.
pub proof fn lemma_wide_leaf_entry(p: Seq<u8>, i: int)
    requires
        node::page_ok(p),
        !node::page_layout(p).compact_meta,
        node::page_kind(p) == NodeKind::Leaf,
        0 <= i < node::page_count(p),
        node::leaf_entry_at(p, i) is Some,
    ensures
        ({
            let at = node::meta_base(p) + 8 * i;
            let e = node::leaf_entry_at(p, i)->Some_0;
            let kept = p[at + 6] + 0x100 * p[at + 7];
            &&& e.key_offset == p[at] + 0x100 * p[at + 1] + 0x1_0000 * p[at + 2] + 0x100_0000 * p[at
                + 3]
            &&& e.key_len == p[at + 4] + 0x100 * p[at + 5]
            &&& match e.value {
                LeafValue::Inline { offset, len } => kept != 0xFFFF && len == kept && offset
                    == e.key_offset + e.key_len && offset + len <= p.len(),
                LeafValue::Overflow { page } => kept == 0xFFFF && page.get() == bytes::u64_at(
                    p,
                    e.key_offset + e.key_len,
                ),
            }
            &&& node::entry_key_at(p, i) == p.subrange(
                e.key_offset as int,
                e.key_offset + e.key_len,
            )
        }),
{
    let at = node::meta_base(p) + 8 * i;
    bytes::lemma_numbers(p, at);
    bytes::lemma_numbers(p, at + 4);
    bytes::lemma_numbers(p, at + 6);
    let e = node::leaf_entry_at(p, i)->Some_0;
    bytes::lemma_numbers(p, e.key_offset + e.key_len);
}

proof fn lemma_fifteen_bits(a: u8, b: u8)
    ensures
        (a + 0x100 * b) % 0x8000 == a + 0x100 * (b % 0x80),
        a + 0x100 * b >= 0x8000 <==> b >= 0x80,
{
    if b >= 0x80 {
        assert(b % 0x80 == b - 0x80);
    }
}

/// A leaf entry that is kept in short: fifteen bits of where it starts, and one that says that
/// its value is on a page of its own. It ends where the next one starts.
pub proof fn lemma_narrow_leaf_entry(p: Seq<u8>, i: int)
    requires
        node::page_ok(p),
        node::page_layout(p).compact_meta,
        node::page_kind(p) == NodeKind::Leaf,
        0 <= i < node::page_count(p),
        node::leaf_entry_at(p, i) is Some,
    ensures
        ({
            let n = node::page_count(p);
            let at = node::meta_base(p) + 2 * i;
            let e = node::leaf_entry_at(p, i)->Some_0;
            let next = p[at + 2] + 0x100 * (p[at + 3] % 0x80);
            &&& e.key_offset == p[at] + 0x100 * (p[at + 1] % 0x80)
            &&& e.key_len == (if node::page_layout(p).omitted_keys {
                0
            } else {
                p[at + 2 * n + 2] + 0x100 * p[at + 2 * n + 3]
            })
            &&& match e.value {
                LeafValue::Inline { offset, len } => p[at + 1] < 0x80 && offset == e.key_offset
                    + e.key_len && offset + len == next,
                LeafValue::Overflow { page } => p[at + 1] >= 0x80 && page.get() == bytes::u64_at(
                    p,
                    e.key_offset + e.key_len,
                ),
            }
        }),
{
    let n = node::page_count(p);
    let at = node::meta_base(p) + 2 * i;
    bytes::lemma_numbers(p, at);
    bytes::lemma_numbers(p, at + 2);
    bytes::lemma_numbers(p, at + 2 * n + 2);
    lemma_fifteen_bits(p[at], p[at + 1]);
    lemma_fifteen_bits(p[at + 2], p[at + 3]);
    let raw = bytes::u16_at(p, at);
    let next = bytes::u16_at(p, at + 2);
    assert(raw == p[at] + 0x100 * p[at + 1]);
    assert(next == p[at + 2] + 0x100 * p[at + 3]);
    let s = node::leaf_span(p, i)->Some_0;
    assert(s.offset == raw % 0x8000);
    assert(s.key_len == (if node::page_layout(p).omitted_keys {
        0
    } else {
        bytes::u16_at(p, at + 2 * n + 2)
    })) by {
        assert(node::meta_base(p) + 2 * (n + 1) + 2 * i == at + 2 * n + 2);
    }
    assert(s.overflow == (raw >= 0x8000));
    assert(node::meta_base(p) + 2 * (i + 1) == at + 2);
    assert(!s.overflow ==> s.offset + s.key_len + s.value_len == next % 0x8000);
    let e = node::leaf_entry_at(p, i)->Some_0;
    assert(e.key_offset == s.offset && e.key_len == s.key_len);
    bytes::lemma_numbers(p, s.offset + s.key_len);
}

/// An entry of a page above the leaves: its key, and behind it the number of the page below.
pub proof fn lemma_internal_entry(p: Seq<u8>, i: int)
    requires
        node::page_ok(p),
        node::page_kind(p) == NodeKind::Internal,
        0 <= i < node::page_count(p),
        node::internal_entry_at(p, i) is Some,
    ensures
        ({
            let l = node::page_layout(p);
            let base = node::meta_base(p);
            let e = node::internal_entry_at(p, i)->Some_0;
            &&& e.child.get() == bytes::u64_at(p, e.key_offset + e.key_len)
            &&& l.omitted_keys ==> e.key_len == 0 && e.key_offset == base + 8 * i
            &&& l.compact_meta && !l.omitted_keys ==> e.key_offset == bytes::u16_at(p, base + 2 * i)
                && e.key_offset + e.key_len + 8 == bytes::u16_at(p, base + 2 * i + 2)
            &&& !l.compact_meta ==> e.key_offset == bytes::u32_at(p, base + 6 * i) && e.key_len
                == bytes::u16_at(p, base + 6 * i + 4)
        }),
{
    let e = node::internal_entry_at(p, i)->Some_0;
    bytes::lemma_numbers(p, e.key_offset + e.key_len);
    bytes::lemma_numbers(p, node::meta_base(p) + 6 * i);
}

/// An index descriptor: two bytes of how long its name is and two of how long the name of its
/// encoding is, the two names, a byte that says whether it is unique, one of what it stores, and
/// eight of its root.
pub proof fn lemma_index_descriptor(s: Seq<u8>, pos: int)
    requires
        0 <= pos,
        catalog::index_at(s, pos) is Done,
    ensures
        ({
            let m = catalog::index_at(s, pos)->value;
            let n = s[pos] + 0x100 * s[pos + 1];
            let k = s[pos + 2] + 0x100 * s[pos + 3];
            let at = pos + 4 + n + k;
            &&& catalog::index_at(s, pos)->at == at + 10
            &&& at + 10 <= s.len()
            &&& encode_utf8(m.name) == s.subrange(pos + 4, pos + 4 + n)
            &&& encode_utf8(m.encoding) == s.subrange(pos + 4 + n, at)
            &&& s[at] <= 1
            &&& m.is_unique <==> s[at] == 1
            &&& m.value_kind == ValueKind::RawData <==> s[at + 1] == 0
            &&& m.value_kind == ValueKind::PrimaryKey <==> s[at + 1] == 1
            &&& m.value_kind == ValueKind::PageRef <==> s[at + 1] == 2
            &&& m.root_field == at + 2
            &&& match m.root {
                Some(o) => o.get() == bytes::u64_at(s, at + 2) && s[at + 9] < 0x80,
                None => bytes::u64_at(s, at + 2) == 0xFFFF_FFFF_FFFF_FFFF,
            }
        }),
{
    bytes::lemma_numbers(s, pos);
    bytes::lemma_numbers(s, pos + 2);
    let n = bytes::u16_at(s, pos);
    let k = bytes::u16_at(s, pos + 2);
    let at = pos + 4 + n + k;
    bytes::lemma_numbers(s, at + 2);
    decode_utf8_encode_utf8(s.subrange(pos + 4, pos + 4 + n));
    decode_utf8_encode_utf8(s.subrange(pos + 4 + n, at));
}

/// A table descriptor: four bytes of how long its name is, the name, the descriptor of its
/// primary index, two bytes of how many other indexes it has, and theirs. No two of its indexes
/// have the same name.
pub proof fn lemma_table_descriptor(s: Seq<u8>, pos: int)
    requires
        0 <= pos,
        catalog::table_at(s, pos) is Done,
    ensures
        ({
            let m = catalog::table_at(s, pos)->value;
            let n = s[pos] + 0x100 * s[pos + 1] + 0x1_0000 * s[pos + 2] + 0x100_0000 * s[pos + 3];
            let primary = catalog::index_at(s, pos + 4 + n);
            &&& encode_utf8(m.name) == s.subrange(pos + 4, pos + 4 + n)
            &&& primary is Done
            &&& m.primary == primary->value
            &&& m.secondaries.len() == s[primary->at] + 0x100 * s[primary->at + 1]
            &&& forall|i: int|
                0 <= i < m.secondaries.len() ==> (#[trigger] m.secondaries[i]).name
                    != m.primary.name
            &&& forall|i: int, j: int|
                0 <= i < j < m.secondaries.len() ==> (#[trigger] m.secondaries[i]).name != (
                #[trigger] m.secondaries[j]).name
        }),
{
    bytes::lemma_numbers(s, pos);
    let n = bytes::i32_at(s, pos);
    decode_utf8_encode_utf8(s.subrange(pos + 4, pos + 4 + n));
    let primary = catalog::index_at(s, pos + 4 + n);
    bytes::lemma_numbers(s, primary->at);
    let m = catalog::table_at(s, pos)->value;
    lemma_indexes_len(s, primary->at + 2, bytes::u16_at(s, primary->at) as nat);
    let all = seq![m.primary] + m.secondaries;
    assert forall|i: int| 0 <= i < m.secondaries.len() implies (#[trigger] m.secondaries[i]).name
        != m.primary.name by {
        assert(all[0].name != all[i + 1].name);
    }
    assert forall|i: int, j: int| 0 <= i < j < m.secondaries.len() implies (
    #[trigger] m.secondaries[i]).name != (#[trigger] m.secondaries[j]).name by {
        assert(all[i + 1].name != all[j + 1].name);
    }
}

proof fn lemma_indexes_len(s: Seq<u8>, pos: int, n: nat)
    ensures
        catalog::indexes_at(s, pos, n) is Done ==> catalog::indexes_at(s, pos, n)->value.len() == n,
    decreases n,
{
    if n > 0 {
        lemma_indexes_len(s, pos, (n - 1) as nat);
    }
}

/// The id of a page filter: a byte of how long it is, and the id. The first one follows the
/// header.
pub proof fn lemma_filter_id(s: Seq<u8>, tables: nat)
    requires
        catalog::catalog_at(s, 1, tables) is Done,
    ensures
        catalog::catalog_at(s, 1, tables)->value.filters.len() == 1,
        s.len() >= 27 + s[26],
        encode_utf8(catalog::catalog_at(s, 1, tables)->value.filters[0]) == s.subrange(
            27,
            27 + s[26],
        ),
{
    reveal_with_fuel(catalog::filters_at, 2);
    decode_utf8_encode_utf8(s.subrange(27, 27 + s[26]));
}

/// A reference is stored in sixteen bytes: eight of the page, four of where in it, four of how
/// much.
pub proof fn lemma_reference_written(r: PageRef)
    requires
        r.storable(),
    ensures
        r.bytes().len() == 16,
        pageref::page_ref_at(r.bytes()) == Some(r),
        bytes::u64_at(r.bytes(), 0) == r.page.get(),
        bytes::u32_at(r.bytes(), 8) == r.start.get(),
        bytes::u32_at(r.bytes(), 12) == r.length,
{
    let b = r.bytes();
    r.lemma_round_trip(Seq::empty());
    assert(b + Seq::<u8>::empty() =~= b);
    bytes::lemma_numbers(b, 0);
    bytes::lemma_numbers(b, 8);
    bytes::lemma_numbers(b, 12);
    assert(b.subrange(0, 8) =~= bytes::le8(r.page.get() as int));
    assert(b.subrange(8, 12) =~= bytes::le4(r.start.get() as int));
    assert(b.subrange(12, 16) =~= bytes::le4(r.length as int));
    bytes::lemma_u64_read_back(b, 0, r.page.get() as int);
    bytes::lemma_u32_read_back(b, 8, r.start.get() as int);
    bytes::lemma_u32_read_back(b, 12, r.length as int);
}

/// What a reference designates lies behind the prefix of its page and inside the page.
pub proof fn lemma_reference_fits(r: PageRef, len: int)
    ensures
        r.fits(len) <==> 28 <= r.start.get() && r.start.get() + r.length <= len,
{
}

} // verus!

//! What opening a file takes, and where its pages are.

use vstd::prelude::*;

use super::open::{self, Opening};
use super::table;
use crate::cache;
use crate::directory::Section;
use crate::encoding::{
    registry, AsciiEncoding, Int64Encoding, SharedEncoding, UlidEncoding, Uuidv7Encoding,
};
use crate::error::ErrorKind;
use crate::filter::PageFilter;
use crate::format::bytes;
use crate::format::catalog::{CatalogModel, IndexModel, Outcome, TableModel, ValueKind};
use crate::format::header::{self, Header, HeaderParse};
use crate::format::node;
use crate::format::PageOrdinal;
use crate::index;
use crate::store::PageFile;

verus! {

broadcast use crate::format::group_format;

/// A search needs four pages at once, a part of the page directory, and eight kibibytes, each
/// buffer with what it costs besides.
pub proof fn lemma_least_budget(page_size: usize, entries: u64)
    requires
        page_size <= 0x7FFF_FFFF,
        entries <= 0x7FFF_FFFF,
    ensures
        open::least_budget(page_size as int, entries as int) == 4 * page_size + 8 * entries + 5
            * 192 + 8192,
{
}

/// What is wrong with a file that cannot be opened, whatever else is: it is no file of this
/// format, or its header cannot be, or the budget is too small for its page size.
pub proof fn lemma_refused_header(image: Seq<u8>, o: Opening)
    ensures
        header::header_at(image) is Unsupported ==> open::verdict(image, o) == Some(
            ErrorKind::UnsupportedFormat,
        ),
        header::header_at(image) is Corrupt ==> open::verdict(image, o) == Some(
            ErrorKind::CorruptData,
        ),
        header::header_at(image) matches HeaderParse::Valid(h) ==> (o.memory_budget
            < open::least_budget(h.page_size as int, o.directory_chunk_entries as int)
            ==> open::verdict(image, o) == Some(ErrorKind::InvalidArgument)),
{
}

/// A file is opened where its header is one, the budget is enough, its descriptors can be read,
/// its directory lies behind them and inside the file, it names no more than one filter, which
/// is known, and its tables are ones that can be; and nowhere else.
pub proof fn lemma_accepted(image: Seq<u8>, o: Opening, h: Header, c: CatalogModel, end: int)
    requires
        header::header_at(image) == HeaderParse::Valid(h),
        o.memory_budget >= open::least_budget(
            h.page_size as int,
            o.directory_chunk_entries as int,
        ),
        open::catalog_of(image, h, o) == (Outcome::Done { value: c, at: end }),
    ensures
        open::verdict(image, o) is None <==> {
            let base = h.page_directory_position.get();
            &&& c.end <= base
            &&& base + 8 * h.page_count <= image.len()
            &&& c.filters.len() <= 1
            &&& c.filters.len() == 1 ==> o.filters.contains_key(c.filters[0]) || c.filters[0]
                == "DryDB.ZstdCompression"@
            &&& forall|i: int|
                0 <= i < c.tables.len() ==> {
                    let t = #[trigger] c.tables[i];
                    &&& t.primary.value_kind == ValueKind::RawData
                    &&& encoding_known(o.encodings, t.primary.encoding)
                    &&& forall|j: int|
                        0 <= j < t.secondaries.len() ==> (
                        #[trigger] t.secondaries[j]).value_kind == ValueKind::PageRef
                            && encoding_known(o.encodings, t.secondaries[j].encoding)
                }
        },
        c.end > h.page_directory_position.get() ==> open::verdict(image, o) == Some(
            ErrorKind::CorruptData,
        ),
        h.page_directory_position.get() + 8 * h.page_count > image.len() ==> open::verdict(image, o)
            == Some(ErrorKind::CorruptData),
{
    lemma_tables_known(c.tables, o.encodings);
}

/// Whether an encoding is one that comes with the library, or one that was registered.
pub open spec fn encoding_known(
    encodings: Map<Seq<char>, SharedEncoding>,
    id: Seq<char>,
) -> bool {
    id == "i64"@ || id == "ascii"@ || id == "uuidv7"@ || id == "ulid"@ || encodings.contains_key(id)
}

proof fn lemma_indexes_known(l: Seq<IndexModel>, encodings: Map<Seq<char>, SharedEncoding>)
    ensures
        table::indexes_verdict(l, encodings) is None <==> forall|j: int|
            0 <= j < l.len() ==> (#[trigger] l[j]).value_kind == ValueKind::PageRef
                && encoding_known(encodings, l[j].encoding),
    decreases l.len(),
{
    if l.len() > 0 {
        let front = l.drop_last();
        lemma_indexes_known(front, encodings);
        assert forall|j: int| 0 <= j < front.len() implies #[trigger] front[j] == l[j] by {}
        if table::indexes_verdict(l, encodings) is None {
            assert forall|j: int| 0 <= j < l.len() implies (#[trigger] l[j]).value_kind
                == ValueKind::PageRef && encoding_known(encodings, l[j].encoding) by {
                if j < front.len() {
                    assert(front[j] == l[j]);
                }
            }
        }
    }
}

proof fn lemma_tables_known(l: Seq<TableModel>, encodings: Map<Seq<char>, SharedEncoding>)
    ensures
        open::tables_verdict(l, encodings) is None <==> forall|i: int|
            0 <= i < l.len() ==> {
                let t = #[trigger] l[i];
                &&& t.primary.value_kind == ValueKind::RawData
                &&& encoding_known(encodings, t.primary.encoding)
                &&& forall|j: int|
                    0 <= j < t.secondaries.len() ==> (#[trigger] t.secondaries[j]).value_kind
                        == ValueKind::PageRef && encoding_known(
                        encodings,
                        t.secondaries[j].encoding,
                    )
            },
    decreases l.len(),
{
    if l.len() > 0 {
        let front = l.drop_last();
        lemma_tables_known(front, encodings);
        lemma_indexes_known(l.last().secondaries, encodings);
        assert forall|j: int| 0 <= j < front.len() implies #[trigger] front[j] == l[j] by {}
        if open::tables_verdict(l, encodings) is None {
            assert forall|i: int| 0 <= i < l.len() implies {
                let t = #[trigger] l[i];
                &&& t.primary.value_kind == ValueKind::RawData
                &&& encoding_known(encodings, t.primary.encoding)
                &&& forall|j: int|
                    0 <= j < t.secondaries.len() ==> (#[trigger] t.secondaries[j]).value_kind
                        == ValueKind::PageRef && encoding_known(
                        encodings,
                        t.secondaries[j].encoding,
                    )
            } by {
                if i < front.len() {
                    assert(front[i] == l[i]);
                }
            }
        }
    }
}

/// An id resolves to the encoding that comes with the library under that id, whatever was
/// registered, and any other id to what was registered under it.
pub proof fn lemma_resolved_encoding(
    encodings: Map<Seq<char>, SharedEncoding>,
    id: Seq<char>,
    e: SharedEncoding,
)
    requires
        index::resolves(encodings, id, e),
    ensures
        id == "i64"@ ==> e.behaves_like(Int64Encoding),
        id == "ascii"@ ==> e.behaves_like(AsciiEncoding),
        id == "uuidv7"@ ==> e.behaves_like(Uuidv7Encoding),
        id == "ulid"@ ==> e.behaves_like(UlidEncoding),
        id != "i64"@ && id != "ascii"@ && id != "uuidv7"@ && id != "ulid"@
            ==> encodings.contains_key(id) && encodings[id] == e,
{
}

/// Shards are halved until what they cost fits a sixty-fourth of the budget, or one is left.
pub proof fn lemma_affordable(shards: nat, budget: u64)
    requires
        1 <= shards <= 1024,
    ensures
        1 <= open::affordable(shards, budget) <= shards,
        open::affordable(shards, budget) == 1 || 176 * open::affordable(shards, budget) + 192
            <= budget / 64,
        176 * shards + 192 <= budget / 64 ==> open::affordable(shards, budget) == shards,
        open::affordable(shards, budget) < shards ==> 176 * shards + 192 > budget / 64,
        shards > 1 && 176 * shards + 192 > budget / 64 ==> open::affordable(shards, budget)
            == open::affordable(shards / 2, budget),
    decreases shards,
{
    if shards > 1 && 176 * shards + 192 > budget / 64 {
        lemma_affordable(shards / 2, budget);
    }
}

/// The cache evicts against what was asked for, or three quarters of the budget, and never against
/// more than the budget.
pub proof fn lemma_cache_room(o: Opening)
    ensures
        open::cache_room(o) <= o.memory_budget,
        o.cache_capacity matches Some(n) ==> (n <= o.memory_budget ==> open::cache_room(o) == n),
        o.cache_capacity is None ==> open::cache_room(o) == o.memory_budget / 4 * 3,
{
}

/// A page of a filtered file can be decoded where the largest decoded page, the page as it is
/// stored, and what the filter needs of its own all fit the budget.
pub proof fn lemma_affords(o: Opening, page_size: int, working: int)
    ensures
        open::affords(o, page_size, working) <==> o.limits.max_decoded_page_bytes + page_size
            + working + 192 <= o.memory_budget,
{
}

/// What the options are unless others are given.
pub proof fn lemma_defaults(o: Opening)
    requires
        open::defaults(o),
    ensures
        o.memory_budget == 64 * 1024 * 1024,
        o.cache_capacity is None,
        o.directory_chunk_entries == 512,
        o.directory_chunks == 8,
        o.limits.max_stored_page_bytes == 64 * 1024 * 1024,
        o.limits.max_decoded_page_bytes == 8 * 1024 * 1024,
        o.limits.max_catalog_bytes == 8 * 1024 * 1024,
        o.limits.max_tree_depth == 64,
        o.validate_digests,
        o.encodings == Map::<Seq<char>, SharedEncoding>::empty(),
{
}

/// A page starts where its slot of the directory says: eight bytes each, the byte that counts
/// least first, of a place behind the header and before the directory.
pub proof fn lemma_page_offset(s: Section, ordinal: PageOrdinal)
    requires
        0 <= s.base,
    ensures
        ({
            let at = s.base + 8 * ordinal.get();
            let start = bytes::u64_at(s.image, at);
            match s.offset(ordinal) {
                Some(o) => ordinal.get() < s.count && at + 8 <= s.image.len() && o.get() == start
                    && 26 <= start < s.base,
                None => !(ordinal.get() < s.count && at + 8 <= s.image.len() && 26 <= start
                    < s.base && start < 0x8000_0000_0000_0000),
            }
        }),
{
    bytes::lemma_numbers(s.image, s.base + 8 * ordinal.get());
}

/// A page of an unfiltered file is its bytes in the file, as many as the first four of them say.
/// It ends inside the file, before the directory, and before the next page where that follows it.
pub proof fn lemma_page_bytes(f: PageFile, ordinal: PageOrdinal)
    requires
        f.page(ordinal) is Some,
        f.filter is None,
    ensures
        f.section.offset(ordinal) is Some,
        ({
            let at = f.section.offset(ordinal)->Some_0.get() as int;
            let p = f.page(ordinal)->Some_0;
            &&& p.len() == bytes::u32_at(f.section.image, at)
            &&& 28 <= p.len() <= f.max_stored
            &&& at + p.len() <= f.section.image.len()
            &&& p == f.section.image.subrange(at, at + p.len())
            &&& node::page_ok(p)
            &&& node::entries_ok(p)
            &&& ordinal.get() + 1 < f.section.count && ordinal.get() < u64::MAX ==> {
                let next = f.section.offset(PageOrdinal::spec_new((ordinal.get() + 1) as u64));
                &&& next is Some
                &&& next->Some_0.get() > at ==> at + p.len() <= next->Some_0.get()
                &&& next->Some_0.get() <= at ==> at + p.len() <= f.section.base
            }
            &&& ordinal.get() + 1 >= f.section.count ==> at + p.len() <= f.section.base
        }),
{
    let at = f.section.offset(ordinal)->Some_0.get() as int;
    bytes::lemma_numbers(f.section.image, at);
}

/// A page of a filtered file keeps its prefix as it is stored, but for its length, and behind it
/// has what the filter makes of the rest.
pub proof fn lemma_page_decoded(f: PageFile, ordinal: PageOrdinal)
    requires
        f.page(ordinal) is Some,
        f.filter is Some,
    ensures
        ({
            let filter = f.filter->Some_0;
            let at = f.section.offset(ordinal)->Some_0.get() as int;
            let len = bytes::u32_at(f.section.image, at);
            let stored = f.section.image.subrange(at, at + len);
            let p = f.page(ordinal)->Some_0;
            &&& filter.inner.content(stored.subrange(28, len)) == Some(
                p.subrange(28, p.len() as int),
            )
            &&& p.subrange(4, 28) == stored.subrange(4, 28)
            &&& p.len() - 28 <= f.max_decoded
            &&& 28 <= len <= f.max_stored
        }),
{
    let filter = f.filter->Some_0;
    let at = f.section.offset(ordinal)->Some_0.get() as int;
    bytes::lemma_numbers(f.section.image, at);
    let len = bytes::u32_at(f.section.image, at);
    let stored = f.section.image.subrange(at, at + len);
    let p = f.page(ordinal)->Some_0;
    let raw = filter.inner.content(stored.subrange(28, len))->Some_0;
    assert(p.subrange(28, p.len() as int) =~= raw);
    assert(p.subrange(4, 28) =~= stored.subrange(4, 28));
}

} // verus!

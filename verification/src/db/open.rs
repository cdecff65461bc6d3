//! Opening a database.

use std::sync::Arc;

use vstd::prelude::*;
use vstd::string::*;
use vstd::utf8::*;

use super::table::{self, TableInner};
use super::Database;
use crate::budget::{self, let_go, Budget, Charge, BUFFER_OVERHEAD};
use crate::cache::{self, PageCache, SHARD_BYTES};
use crate::directory::{self, PageDirectory};
use crate::encoding::registry;
use crate::encoding::{EncodingRegistry, KeyEncoding, SharedEncoding};
use crate::error::{Error, ErrorKind, Words};
use crate::filter::{FilterRegistry, PageFilter, SharedFilter};
use crate::format::bytes::zeroed;
use crate::format::catalog::{
    self, Catalog, CatalogModel, CatalogParse, IndexDescriptor, Outcome, TableDescriptor,
};
use crate::format::extend;
use crate::format::header::{self, Header, HeaderParse};
use crate::format::{DIRECTORY_SLOT_LEN, HEADER_LEN};
use crate::io::{read_up_to_at, MemorySource, PageSource, SharedSource};
use crate::metrics::Metrics;
use crate::store::{Limits, PageStore, PageStoreParts};

verus! {

broadcast use crate::format::group_format;

/// Default managed memory budget.
pub const DEFAULT_MEMORY_BUDGET: u64 = 0x400_0000;

/// Default number of page directory slots read per chunk.
pub const DEFAULT_DIRECTORY_CHUNK_ENTRIES: u64 = 512;

/// Default number of page directory chunks kept resident.
pub const DEFAULT_DIRECTORY_CHUNKS: usize = 8;

/// Default number of cache shards.
pub const DEFAULT_CACHE_SHARDS: usize = 16;

/// The share of the budget the cache's shard array may take.
pub const SHARD_BUDGET_SHARE: u64 = 64;

/// How much of a file is read at first.
pub const FIRST_READ: usize = 0x2000;

/// How to open a database.
///
/// The memory settings are the interesting ones: `memory_budget` is a hard cap on what this
/// crate allocates on your behalf, and `cache_capacity` is the softer limit the page cache
/// evicts against. See [`Database::memory_report`] for what is and is not counted.
pub struct OpenOptions {
    memory_budget: u64,
    cache_capacity: Option<u64>,
    cache_shards: usize,
    directory_chunk_entries: u64,
    directory_chunks: usize,
    limits: Limits,
    encodings: EncodingRegistry,
    filters: FilterRegistry,
    validate_digests: bool,
}

/// What options say.
pub struct Opening {
    pub memory_budget: u64,
    pub cache_capacity: Option<u64>,
    pub cache_shards: usize,
    pub directory_chunk_entries: u64,
    pub directory_chunks: usize,
    pub limits: Limits,
    pub encodings: Map<Seq<char>, SharedEncoding>,
    pub filters: Map<Seq<char>, SharedFilter>,
    pub validate_digests: bool,
}

impl View for OpenOptions {
    type V = Opening;

    closed spec fn view(&self) -> Opening {
        Opening {
            memory_budget: self.memory_budget,
            cache_capacity: self.cache_capacity,
            cache_shards: self.cache_shards,
            directory_chunk_entries: self.directory_chunk_entries,
            directory_chunks: self.directory_chunks,
            limits: self.limits,
            encodings: self.encodings@,
            filters: self.filters@,
            validate_digests: self.validate_digests,
        }
    }
}

/// The options a database is opened with unless others are given.
pub open spec fn defaults(o: Opening) -> bool {
    &&& o.memory_budget == DEFAULT_MEMORY_BUDGET
    &&& o.cache_capacity is None
    &&& o.cache_shards == DEFAULT_CACHE_SHARDS
    &&& o.directory_chunk_entries == DEFAULT_DIRECTORY_CHUNK_ENTRIES
    &&& o.directory_chunks == DEFAULT_DIRECTORY_CHUNKS
    &&& o.limits.max_stored_page_bytes == 0x400_0000
    &&& o.limits.max_decoded_page_bytes == 0x80_0000
    &&& o.limits.max_catalog_bytes == 0x80_0000
    &&& o.limits.max_tree_depth == 64
    &&& o.encodings == Map::<Seq<char>, SharedEncoding>::empty()
    &&& o.filters == Map::<Seq<char>, SharedFilter>::empty()
    &&& o.validate_digests
}

impl Clone for OpenOptions {
    fn clone(&self) -> (r: Self)
        ensures
            r@ == self@,
    {
        OpenOptions {
            memory_budget: self.memory_budget,
            cache_capacity: self.cache_capacity,
            cache_shards: self.cache_shards,
            directory_chunk_entries: self.directory_chunk_entries,
            directory_chunks: self.directory_chunks,
            limits: self.limits,
            encodings: self.encodings.clone(),
            filters: self.filters.clone(),
            validate_digests: self.validate_digests,
        }
    }
}

impl Default for OpenOptions {
    fn default() -> (r: Self)
        ensures
            defaults(r@),
    {
        OpenOptions {
            memory_budget: DEFAULT_MEMORY_BUDGET,
            cache_capacity: None,
            cache_shards: DEFAULT_CACHE_SHARDS,
            directory_chunk_entries: DEFAULT_DIRECTORY_CHUNK_ENTRIES,
            directory_chunks: DEFAULT_DIRECTORY_CHUNKS,
            limits: Limits::default(),
            encodings: EncodingRegistry::new(),
            filters: FilterRegistry::new(),
            validate_digests: true,
        }
    }
}

/// Shards whose fixed cost fits in a small share of the budget, halving until it does.
pub open spec fn affordable(shards: nat, memory_budget: u64) -> nat
    decreases shards,
{
    if shards > 1 && budget::capped(shards * SHARD_BYTES + BUFFER_OVERHEAD) > memory_budget
        / SHARD_BUDGET_SHARE {
        affordable(shards / 2, memory_budget)
    } else {
        shards
    }
}

/// Shards whose fixed cost fits in a small share of the budget.
///
/// Halved until it fits, down to one. A shard count is a concurrency setting, so trimming
/// it costs contention under load and nothing else, while spending a tight budget on an
/// array of locks costs the pages a search needs.
pub(crate) fn affordable_shards(requested: usize, memory_budget: u64) -> (r: usize)
    ensures
        r == affordable(cache::spec_shard_count(requested), memory_budget),
{
    let mut shards = PageCache::shard_count(requested);
    let share = memory_budget / SHARD_BUDGET_SHARE;
    while shards > 1 && PageCache::bookkeeping_bytes(shards) > share
        invariant
            share == memory_budget / SHARD_BUDGET_SHARE,
            affordable(shards as nat, memory_budget) == affordable(
                cache::spec_shard_count(requested),
                memory_budget,
            ),
        decreases shards,
    {
        shards = shards / 2;
    }
    shards
}

/// The smallest budget a search can complete in: a few pages at once, one page directory
/// chunk, and slack for the cache's own bookkeeping.
pub open spec fn least_budget(page_size: int, directory_chunk_entries: int) -> u64 {
    budget::capped(
        4 * (page_size + BUFFER_OVERHEAD) + (DIRECTORY_SLOT_LEN * directory_chunk_entries
            + BUFFER_OVERHEAD) + 0x2000,
    )
}

/// The smallest budget a search can complete in.
pub(crate) fn minimum_budget(page_size: usize, directory_chunk_entries: u64) -> (r: u64)
    ensures
        r == least_budget(page_size as int, directory_chunk_entries as int),
{
    let pages: u128 = 4 * (page_size as u128 + BUFFER_OVERHEAD as u128);
    let directory: u128 = 8 * (directory_chunk_entries as u128) + BUFFER_OVERHEAD as u128;
    let total: u128 = pages + directory + 0x2000;
    if total > u64::MAX as u128 {
        u64::MAX
    } else {
        total as u64
    }
}

/// The front of a file that may hold its descriptors.
pub open spec fn front(image: Seq<u8>, max_bytes: int) -> Seq<u8> {
    let n = if max_bytes < HEADER_LEN {
        HEADER_LEN as int
    } else {
        max_bytes
    };
    if image.len() <= n {
        image
    } else {
        image.subrange(0, n)
    }
}

/// Reads and validates the 26-byte file header.
pub(crate) fn read_header<S: PageSource + ?Sized>(source: &S) -> (r: Result<Header, Error>)
    ensures
        match r {
            Ok(h) => header::header_at(source.image()) == HeaderParse::Valid(h)
                && source.image().len() >= HEADER_LEN,
            Err(e) => {
                ||| e.kind() == ErrorKind::Io && !source.dependable()
                ||| header::header_at(source.image()) is Unsupported && e.kind()
                    == ErrorKind::UnsupportedFormat
                ||| header::header_at(source.image()) is Corrupt && e.is_corrupt()
            },
        },
{
    let mut head = zeroed(HEADER_LEN);
    let filled = match read_up_to_at(source, head.as_mut_slice(), 0) {
        Ok(n) => n,
        Err(e) => return Err(e),
    };
    if filled < HEADER_LEN {
        return Err(
            Error::new(ErrorKind::UnsupportedFormat, "file is shorter than the 26-byte header"),
        );
    }
    proof {
        assert(head@ =~= source.image().subrange(0, HEADER_LEN as int));
        extend::lemma_header(head@, source.image());
    }
    Header::parse(head.as_slice())
}

/// Whether memory for reading the front of a file up to `end` was reserved.
pub open spec fn front_paid(budget: Arc<Budget>, end: int) -> bool {
    exists|n: u64| #[trigger]
        budget.asked(n, Ok::<(), Error>(())) && n >= budget::capped(end + BUFFER_OVERHEAD)
}

/// Reads the descriptor section, charging every buffer it allocates.
///
/// Starts small and doubles, so a file with a few short table names does not reserve the
/// whole catalog limit, and a budget too small for the descriptors fails here rather than
/// silently allocating outside it.
///
/// The read buffer and the parsed descriptors are charged separately, so the buffer's share
/// is released with the buffer and the returned charge covers the catalog alone. The caller
/// grows it further for the copies the table handles keep.
pub(crate) fn read_catalog<S: PageSource + ?Sized>(
    source: &S,
    header: &Header,
    max_bytes: usize,
    budget: &Arc<Budget>,
) -> (r: Result<(Charge, Catalog), Error>)
    requires
        source.image().len() >= HEADER_LEN,
    ensures
        ({
            let model = catalog::catalog_at(
                front(source.image(), max_bytes as int),
                header.page_filter_count as nat,
                header.table_count as nat,
            );
            match r {
                Ok((charge, c)) => {
                    &&& charge.owner() == *budget
                    &&& charge.spec_bytes() == budget::capped(catalog::catalog_price(c@))
                    &&& front_paid(*budget, c.descriptor_end as int)
                    &&& model == (Outcome::Done { value: c@, at: c.descriptor_end as int })
                    &&& c.page_size == header.page_size
                    &&& c.page_count == header.page_count
                    &&& c.directory_position == header.page_directory_position
                },
                Err(e) => {
                    ||| front_starved(*budget, source.image(), max_bytes as int, e)
                    ||| e.kind() == ErrorKind::Io && !source.dependable()
                    ||| model is Short && e.is_corrupt()
                    ||| model == (Outcome::<CatalogModel>::Bad { kind: e.kind() })
                },
            }
        }),
{
    let ghost image = source.image();
    let ghost fore = front(image, max_bytes as int);
    let ghost (filters, tables) = (header.page_filter_count as nat, header.table_count as nat);
    let mut capacity: usize = if max_bytes < FIRST_READ {
        max_bytes
    } else {
        FIRST_READ
    };
    if capacity < HEADER_LEN {
        capacity = HEADER_LEN;
    }
    loop
        invariant
            image == source.image(),
            fore == front(image, max_bytes as int),
            filters == header.page_filter_count,
            tables == header.table_count,
            image.len() >= HEADER_LEN,
            HEADER_LEN <= capacity,
            capacity <= max_bytes || capacity == HEADER_LEN,
        decreases max_bytes as int + HEADER_LEN - capacity,
    {
        let wanted = (capacity as u64).saturating_add(BUFFER_OVERHEAD);
        proof {
            assert(wanted == budget::capped(capacity as int + BUFFER_OVERHEAD));
            assert(front_wants(image, max_bytes as int, wanted));
        }
        let buffer_charge = match budget.try_reserve(wanted) {
            Ok(c) => c,
            Err(e) => return Err(e),
        };
        let mut catalog_charge = match budget.try_reserve(0) {
            Ok(c) => c,
            Err(e) => return Err(e),
        };
        let mut buf = zeroed(capacity);
        let filled = match read_up_to_at(source, buf.as_mut_slice(), 0) {
            Ok(n) => n,
            Err(e) => return Err(e),
        };
        buf.truncate(filled);
        proof {
            assert(buf@ =~= image.subrange(0, filled as int));
            assert(extend::is_front(buf@, fore)) by {
                assert(buf@ =~= fore.subrange(0, filled as int));
            }
            extend::lemma_catalog(buf@, fore, filters, tables);
            if filled < capacity {
                assert(buf@ =~= fore);
            }
            if capacity >= max_bytes && filled == capacity {
                assert(buf@ =~= fore);
            }
        }
        match catalog::parse(
            buf.as_slice(),
            header.page_filter_count,
            header.table_count,
            header.page_size,
            header.page_count,
            header.page_directory_position,
            &mut catalog_charge,
        ) {
            Ok(CatalogParse::Complete(c)) => {
                proof {
                    assert(budget.asked(wanted, Ok::<(), Error>(())));
                }
                let_go(buf);
                let_go(buffer_charge);
                return Ok((catalog_charge, *c));
            },
            Ok(CatalogParse::NeedMore(needed)) => {
                if filled < capacity {
                    return Err(
                        Error::corrupt("table descriptors are truncated at the end of the file"),
                    );
                }
                if capacity >= max_bytes {
                    return Err(
                        Error::corrupt_number(
                            "table descriptors need more than the ",
                            max_bytes as u64,
                            " byte catalog limit",
                        ),
                    );
                }
                let doubled = capacity.saturating_add(capacity);
                let wanted = if needed > doubled {
                    needed
                } else {
                    doubled
                };
                // The buffer goes before the reservation that stood for it: between the two
                // the budget would say the memory is free while it is still held.
                let_go(buf);
                let_go(catalog_charge);
                let_go(buffer_charge);
                capacity = if wanted > max_bytes {
                    max_bytes
                } else {
                    wanted
                };
            },
            Err(e) => return Err(e),
        }
    }
}

/// Why one of a list of tables cannot be opened, the first of them that cannot.
pub open spec fn tables_verdict(
    l: Seq<catalog::TableModel>,
    encodings: Map<Seq<char>, SharedEncoding>,
) -> Option<ErrorKind>
    decreases l.len(),
{
    if l.len() == 0 {
        None
    } else {
        match tables_verdict(l.drop_last(), encodings) {
            Some(k) => Some(k),
            None => table::table_verdict(l.last(), encodings),
        }
    }
}

/// The first reason stands.
proof fn lemma_tables_verdict(
    l: Seq<catalog::TableModel>,
    encodings: Map<Seq<char>, SharedEncoding>,
    n: int,
)
    requires
        0 <= n <= l.len(),
        tables_verdict(l.subrange(0, n), encodings) is Some,
    ensures
        tables_verdict(l, encodings) == tables_verdict(l.subrange(0, n), encodings),
    decreases l.len(),
{
    if n == l.len() {
        assert(l.subrange(0, n) =~= l);
    } else {
        assert(l.drop_last().subrange(0, n) =~= l.subrange(0, n));
        lemma_tables_verdict(l.drop_last(), encodings, n);
    }
}

/// Why the pages of a file cannot be read, if they cannot: its directory does not fit, or
/// its page filter is not known.
pub open spec fn pages_verdict(image: Seq<u8>, h: Header, c: CatalogModel, o: Opening) -> Option<
    ErrorKind,
> {
    let base = h.page_directory_position.get();
    if base + h.page_count * DIRECTORY_SLOT_LEN > image.len() || c.end > base {
        Some(ErrorKind::CorruptData)
    } else if c.filters.len() > 1 {
        Some(ErrorKind::Unsupported)
    } else if c.filters.len() == 1 && !o.filters.contains_key(c.filters[0]) && c.filters[0]
        != "DryDB.ZstdCompression"@ {
        Some(ErrorKind::UnknownFilter)
    } else {
        None
    }
}

/// Why a file cannot be opened, if it cannot: the first thing that is wrong with it, or the
/// budget, when that is too small for a file of its page size.
pub open spec fn verdict(image: Seq<u8>, o: Opening) -> Option<ErrorKind> {
    match header::header_at(image) {
        HeaderParse::Unsupported => Some(ErrorKind::UnsupportedFormat),
        HeaderParse::Corrupt => Some(ErrorKind::CorruptData),
        HeaderParse::Valid(h) => if o.memory_budget < least_budget(
            h.page_size as int,
            o.directory_chunk_entries as int,
        ) {
            Some(ErrorKind::InvalidArgument)
        } else {
            match catalog_of(image, h, o) {
                Outcome::Short { .. } => Some(ErrorKind::CorruptData),
                Outcome::Bad { kind } => Some(kind),
                Outcome::Done { value, .. } => match pages_verdict(image, h, value, o) {
                    Some(k) => Some(k),
                    None => tables_verdict(value.tables, o.encodings),
                },
            }
        },
    }
}

/// The descriptors in the front of a file.
pub open spec fn catalog_of(image: Seq<u8>, h: Header, o: Opening) -> Outcome<CatalogModel> {
    catalog::catalog_at(
        front(image, o.limits.max_catalog_bytes as int),
        h.page_filter_count as nat,
        h.table_count as nat,
    )
}

/// Whether an error is one that opening a file may report: what is wrong with it, memory,
/// the source, or a filter that needs more memory than there is.
pub open spec fn refusal(image: Seq<u8>, dependable: bool, o: Opening, e: Error) -> bool {
    ||| verdict(image, o) == Some(e.kind())
    ||| begun(image, o) && exists|b: Arc<Budget>, n: u64|
        #[trigger] b.asked(n, Err::<(), Error>(e)) && b.spec_limit() == o.memory_budget && wants(
            image,
            o,
            n,
        )
    ||| e.kind() == ErrorKind::Io && !dependable
    ||| e.kind() == ErrorKind::InvalidArgument && filtered(image, o)
}

/// Whether reading the front of a file may ask for this much memory at once: for the bytes, or
/// for the descriptors in them.
pub open spec fn front_wants(image: Seq<u8>, max_bytes: int, n: u64) -> bool {
    ||| exists|len: int|
        HEADER_LEN <= len && (len <= max_bytes || len == HEADER_LEN) && n
            == #[trigger] budget::capped(len + BUFFER_OVERHEAD)
    ||| catalog::wants(front(image, max_bytes).len() as int, n)
}

/// Whether an error is that of the front of a file for which the budget had no room.
pub open spec fn front_starved(b: Arc<Budget>, image: Seq<u8>, max_bytes: int, e: Error) -> bool {
    exists|n: u64|
        #[trigger] b.asked(n, Err::<(), Error>(e)) && front_wants(image, max_bytes, n)
}

/// What the handles of tables and indexes cost on top of the parsed catalog.
pub open spec fn handles_cost(l: Seq<TableDescriptor>) -> u64 {
    budget::capped(
        3 * tables_cost(l, l.len()) + (handles(l, l.len()) + 2) * (4 * BUFFER_OVERHEAD),
    )
}

/// Whether opening a file may ask for this much memory at once: for its front, for the shards of
/// the cache, or for the handles of its tables.
pub open spec fn wants(image: Seq<u8>, o: Opening, n: u64) -> bool {
    ||| front_wants(image, o.limits.max_catalog_bytes as int, n)
    ||| n == budget::capped(
        affordable(cache::spec_shard_count(o.cache_shards), o.memory_budget) * SHARD_BYTES
            + BUFFER_OVERHEAD,
    )
    ||| header::header_at(image) matches HeaderParse::Valid(h) && (catalog_of(
        image,
        h,
        o,
    ) matches Outcome::Done { value, .. } && exists|l: Seq<TableDescriptor>|
        catalog::table_models(l) == value.tables && n == #[trigger] handles_cost(l))
}

/// Whether opening a file gets as far as reserving memory: its header is one, and the budget is
/// enough for its page size.
pub open spec fn begun(image: Seq<u8>, o: Opening) -> bool {
    &&& header::header_at(image) matches HeaderParse::Valid(h)
    &&& o.memory_budget >= least_budget(h.page_size as int, o.directory_chunk_entries as int)
}

/// Whether a file's pages went through a filter that said it needs more memory than there is.
pub open spec fn filtered(image: Seq<u8>, o: Opening) -> bool {
    &&& header::header_at(image) matches HeaderParse::Valid(h)
    &&& catalog_of(image, h, o) matches Outcome::Done { value, .. }
    &&& value.filters.len() == 1
    &&& exists|f: SharedFilter| #[trigger]
        filter_named(o.filters, value.filters[0], f) && filter_short(o, h.page_size as int, f)
}

/// Whether a filter may have said that it needs this much memory of its own.
pub open spec fn said_to_need(f: SharedFilter, working: u64) -> bool {
    working == 0 || f.inner.needs(working)
}

/// Whether a filter may have said that telling what it needs costs this much.
pub open spec fn said_to_cost(f: SharedFilter, probe: u64) -> bool {
    probe == 0 || f.inner.probes(probe)
}

/// Whether a filter said that it needs more memory than there is, or even saying so took more.
pub open spec fn filter_short(o: Opening, page_size: int, f: SharedFilter) -> bool {
    ||| exists|w: u64| #[trigger] said_to_need(f, w) && !affords(o, page_size, w as int)
    ||| exists|p: u64, b: Arc<Budget>| #[trigger] said_to_cost(f, p) && #[trigger] b.refused(p)
        && b.spec_limit() == o.memory_budget
}

/// Whether a budget is enough to decode one page through a filter that needs `working` bytes of
/// its own.
pub open spec fn affords(o: Opening, page_size: int, working: int) -> bool {
    o.limits.max_decoded_page_bytes + BUFFER_OVERHEAD + page_size + working <= o.memory_budget
}

/// Whether a filter is the one of an id.
pub open spec fn filter_named(
    filters: Map<Seq<char>, SharedFilter>,
    id: Seq<char>,
    f: SharedFilter,
) -> bool {
    if filters.contains_key(id) {
        f == filters[id]
    } else {
        id == "DryDB.ZstdCompression"@ && f.is_zstd()
    }
}

/// What one index descriptor costs besides its slot.
pub open spec fn index_cost(d: IndexDescriptor) -> int {
    encode_utf8(d.name@).len() + encode_utf8(d.key_encoding_id@).len() + 2 * BUFFER_OVERHEAD
}

/// What the first `n` index descriptors cost besides their slots.
pub open spec fn indexes_cost(l: Seq<IndexDescriptor>, n: nat) -> int
    decreases n,
{
    if n == 0 {
        0
    } else {
        indexes_cost(l, (n - 1) as nat) + index_cost(l[n - 1])
    }
}

/// What one copy of a table descriptor costs.
pub open spec fn table_cost(t: TableDescriptor) -> int {
    encode_utf8(t.name@).len() + BUFFER_OVERHEAD + index_cost(t.primary) + INDEX_DESCRIPTOR_BYTES
        * t.secondaries@.len() + BUFFER_OVERHEAD + indexes_cost(
        t.secondaries@,
        t.secondaries@.len(),
    )
}

/// What one copy of the first `n` table descriptors costs.
pub open spec fn tables_cost(l: Seq<TableDescriptor>, n: nat) -> int
    decreases n,
{
    if n == 0 {
        0
    } else {
        tables_cost(l, (n - 1) as nat) + table_cost(l[n - 1])
    }
}

/// The memory an index descriptor takes in a list, without its texts.
pub const INDEX_DESCRIPTOR_BYTES: u64 = 80;

fn index_bytes(d: &IndexDescriptor) -> (r: u64)
    ensures
        r == budget::capped(index_cost(*d)),
{
    let name = d.name.as_str().as_bytes().len() as u64;
    let encoding = d.key_encoding_id.as_str().as_bytes().len() as u64;
    name.saturating_add(encoding).saturating_add(2 * BUFFER_OVERHEAD)
}

proof fn lemma_indexes_cost(l: Seq<IndexDescriptor>, n: nat)
    ensures
        indexes_cost(l, n) >= 0,
    decreases n,
{
    if n > 0 {
        lemma_indexes_cost(l, (n - 1) as nat);
    }
}

proof fn lemma_tables_cost(l: Seq<TableDescriptor>, n: nat)
    ensures
        tables_cost(l, n) >= 0,
    decreases n,
{
    if n > 0 {
        lemma_tables_cost(l, (n - 1) as nat);
        lemma_indexes_cost(l[n - 1].secondaries@, l[n - 1].secondaries@.len());
    }
}

fn table_bytes(t: &TableDescriptor) -> (r: u64)
    ensures
        r == budget::capped(table_cost(*t)),
{
    let slots: u128 = 80 * (t.secondaries.len() as u128);
    let slot_bytes: u64 = if slots > u64::MAX as u128 {
        u64::MAX
    } else {
        slots as u64
    };
    let mut total = (t.name.as_str().as_bytes().len() as u64).saturating_add(BUFFER_OVERHEAD)
        .saturating_add(index_bytes(&t.primary)).saturating_add(slot_bytes).saturating_add(
        BUFFER_OVERHEAD,
    );
    let ghost fixed = table_cost(*t) - indexes_cost(t.secondaries@, t.secondaries@.len());
    let mut i: usize = 0;
    while i < t.secondaries.len()
        invariant
            i <= t.secondaries@.len(),
            fixed >= 0,
            total == budget::capped(fixed + indexes_cost(t.secondaries@, i as nat)),
        decreases t.secondaries@.len() - i,
    {
        proof {
            lemma_indexes_cost(t.secondaries@, i as nat);
        }
        total = total.saturating_add(index_bytes(&t.secondaries[i]));
        i += 1;
    }
    total
}

/// How many handles a list of tables needs: one per table and one per secondary index.
pub open spec fn handles(l: Seq<TableDescriptor>, n: nat) -> int
    decreases n,
{
    if n == 0 {
        0
    } else {
        handles(l, (n - 1) as nat) + 1 + l[n - 1].secondaries@.len()
    }
}

proof fn lemma_handles(l: Seq<TableDescriptor>, n: nat)
    ensures
        handles(l, n) >= 0,
    decreases n,
{
    if n > 0 {
        lemma_handles(l, (n - 1) as nat);
    }
}

/// What the table and index handles cost on top of the parsed catalog.
///
/// Each table handle clones its whole descriptor, each index handle clones its own. Three
/// copies of the descriptors is an upper bound on that, and the per-entry term covers the
/// lists of handles.
pub(crate) fn handle_footprint(tables: &Vec<TableDescriptor>) -> (r: u64)
    ensures
        r == budget::capped(
            3 * tables_cost(tables@, tables@.len()) + (handles(tables@, tables@.len()) + 2) * (4
                * BUFFER_OVERHEAD),
        ),
{
    let mut copies: u64 = 0;
    let mut entries: u64 = 0;
    let mut i: usize = 0;
    while i < tables.len()
        invariant
            i <= tables@.len(),
            copies == budget::capped(tables_cost(tables@, i as nat)),
            entries == budget::capped(handles(tables@, i as nat)),
        decreases tables@.len() - i,
    {
        proof {
            lemma_tables_cost(tables@, i as nat);
            lemma_handles(tables@, i as nat);
            lemma_indexes_cost(tables@[i as int].secondaries@, tables@[i as int].secondaries@.len());
        }
        copies = copies.saturating_add(table_bytes(&tables[i]));
        entries = entries.saturating_add(1).saturating_add(tables[i].secondaries.len() as u64);
        i += 1;
    }
    proof {
        lemma_tables_cost(tables@, tables@.len());
        lemma_handles(tables@, tables@.len());
        lemma_product(handles(tables@, tables@.len()), BUFFER_OVERHEAD as int);
    }
    let total: u128 = 3 * (copies as u128) + (entries as u128 + 2) * 768;
    if total > u64::MAX as u128 {
        u64::MAX
    } else {
        total as u64
    }
}

proof fn lemma_product(n: int, over: int)
    requires
        over == 192,
    ensures
        (n + 2) * (4 * over) == (n + 2) * 768,
{
}

/// What the page cache evicts against: what the caller asked for, three quarters of the budget
/// where nothing was asked for, and never more than the budget.
pub open spec fn cache_room(o: Opening) -> u64 {
    let wanted = match o.cache_capacity {
        Some(n) => n,
        None => (o.memory_budget / 4 * 3) as u64,
    };
    if wanted > o.memory_budget {
        o.memory_budget
    } else {
        wanted
    }
}

/// Whether what a database holds from the start is charged on its budget, which started with
/// nothing handed out: the catalog and the handles of its tables, and the shards of the cache.
/// What the catalog was read into was reserved too.
pub open spec fn paid_for(db: &Database, o: Opening) -> bool {
    let store = db.spec_store();
    let c = db.spec_catalog();
    &&& store.spec_budget().fresh()
    &&& front_paid(store.spec_budget(), c.descriptor_end as int)
    &&& db.spec_charge().owner() == store.spec_budget()
    &&& db.spec_charge().spec_bytes() == budget::capped(
        catalog::catalog_price(c@) + handles_cost(c.tables@),
    )
    &&& store.spec_charge().owner() == store.spec_budget()
    &&& store.spec_charge().spec_bytes() == budget::capped(
        affordable(cache::spec_shard_count(o.cache_shards), o.memory_budget) * cache::SHARD_BYTES
            + BUFFER_OVERHEAD,
    )
}

/// Whether a database is one over the file of a source.
pub open spec fn opened(db: &Database, source: SharedSource, o: Opening) -> bool {
    let image = source.inner.image();
    let c = db.spec_catalog();
    let file = db.spec_store().file();
    &&& header::header_at(image) matches HeaderParse::Valid(h) && {
        &&& catalog_of(image, h, o) == (Outcome::Done { value: c@, at: c.descriptor_end as int })
        &&& c.page_size == h.page_size
        &&& c.page_count == h.page_count
        &&& c.directory_position == h.page_directory_position
        &&& file.section == (directory::Section {
            image,
            base: h.page_directory_position.get() as int,
            count: h.page_count as int,
        })
    }
    &&& file.max_stored == o.limits.max_stored_page_bytes
    &&& file.max_decoded == o.limits.max_decoded_page_bytes
    &&& match file.filter {
        None => c@.filters.len() == 0,
        Some(f) => c@.filters.len() == 1 && filter_named(o.filters, c@.filters[0], f),
    }
    &&& db.spec_store().spec_source() == source
    &&& db.spec_store().spec_limits() == o.limits
    &&& db.spec_store().spec_budget().spec_limit() == o.memory_budget
    &&& db.spec_store().spec_cache().spec_capacity() == cache_room(o)
    &&& db.spec_store().spec_cache().spec_shards() == cache::spec_shard_count(
        affordable(cache::spec_shard_count(o.cache_shards), o.memory_budget) as usize,
    )
    &&& db.spec_store().spec_metrics() == db.spec_metrics()
    &&& db.spec_store().spec_cache().spec_metrics() == db.spec_metrics()
    &&& db.spec_store().spec_directory().spec_metrics() == db.spec_metrics()
    &&& db.spec_store().spec_directory().spec_budget() == db.spec_store().spec_budget()
    &&& db.spec_store().spec_directory().per_chunk() == (if o.directory_chunk_entries == 0 {
        1
    } else {
        o.directory_chunk_entries
    })
    &&& db.spec_store().spec_directory().chunk_limit() == (if o.directory_chunks == 0 {
        1
    } else {
        o.directory_chunks
    })
    &&& source.inner.dependable() && (file.filter matches Some(f) ==> f.inner.dependable())
        && DIRECTORY_SLOT_LEN * o.directory_chunk_entries <= usize::MAX
        && o.directory_chunk_entries > 0 ==> db.spec_store().dependable()
    &&& db.spec_tables().len() == c.tables@.len()
    &&& forall|i: int|
        0 <= i < c.tables@.len() ==> (#[trigger] db.spec_tables()[i]).opened(
            c.tables@[i],
            db.spec_store(),
            o.encodings,
        ) && db.spec_tables()[i].validates(o.validate_digests) && db.spec_tables()[i].shares(
            db.spec_charge(),
        )
    &&& paid_for(db, o)
}

impl OpenOptions {
    /// Default options.
    pub fn new() -> (r: OpenOptions)
        ensures
            defaults(r@),
    {
        OpenOptions::default()
    }

    /// Hard cap on bytes this crate allocates for pages, scratch and directory chunks.
    pub fn memory_budget(self, bytes: u64) -> (r: Self)
        ensures
            r@ == (Opening { memory_budget: bytes, ..self@ }),
    {
        let mut this = self;
        this.memory_budget = bytes;
        this
    }

    /// Soft cap the page cache evicts against. Defaults to three quarters of the budget,
    /// leaving room for scratch and live guards.
    pub fn cache_capacity(self, bytes: u64) -> (r: Self)
        ensures
            r@ == (Opening { cache_capacity: Some(bytes), ..self@ }),
    {
        let mut this = self;
        this.cache_capacity = Some(bytes);
        this
    }

    /// Number of cache shards.
    ///
    /// Rounded up to a power of two and capped at 1024. Opening also lowers it until the
    /// shard array itself fits in a small share of the memory budget, the same way
    /// [`OpenOptions::cache_capacity`] is capped by the budget: shards are a concurrency
    /// setting, and a tight budget is better spent on pages.
    pub fn cache_shards(self, shards: usize) -> (r: Self)
        ensures
            r@ == (Opening {
                cache_shards: if shards == 0 {
                    1
                } else {
                    shards
                },
                ..self@
            }),
    {
        let mut this = self;
        this.cache_shards = if shards == 0 {
            1
        } else {
            shards
        };
        this
    }

    /// Page directory slots per chunk read.
    pub fn directory_chunk_entries(self, entries: u64) -> (r: Self)
        ensures
            r@ == (Opening {
                directory_chunk_entries: if entries == 0 {
                    1
                } else {
                    entries
                },
                ..self@
            }),
    {
        let mut this = self;
        this.directory_chunk_entries = if entries == 0 {
            1
        } else {
            entries
        };
        this
    }

    /// Page directory chunks kept resident.
    pub fn directory_chunks(self, chunks: usize) -> (r: Self)
        ensures
            r@ == (Opening {
                directory_chunks: if chunks == 0 {
                    1
                } else {
                    chunks
                },
                ..self@
            }),
    {
        let mut this = self;
        this.directory_chunks = if chunks == 0 {
            1
        } else {
            chunks
        };
        this
    }

    /// Structural limits applied to pages and trees.
    pub fn limits(self, limits: Limits) -> (r: Self)
        ensures
            r@ == (Opening { limits, ..self@ }),
    {
        let mut this = self;
        this.limits = limits;
        this
    }

    /// Whether a page's digests are checked against its keys before a tree uses it.
    ///
    /// On by default. Every search uses the digest array to decide where in a page the key
    /// comparison starts, so a digest that disagrees with its key makes the search skip rows
    /// without any bound being violated: the result is quietly short rather than an error.
    /// The check costs one digest computation per entry the first time a given tree reaches
    /// the page, not once per lookup, so it sits in the shadow of the read that brought the
    /// page in.
    ///
    /// Turning it off is for callers who produced the file themselves and measured that the
    /// check matters. It does not apply to pages that omit key bytes, where the digest is the
    /// key column and there is nothing to compare it against.
    pub fn validate_digests(self, validate: bool) -> (r: Self)
        ensures
            r@ == (Opening { validate_digests: validate, ..self@ }),
    {
        let mut this = self;
        this.validate_digests = validate;
        this
    }

    /// Registers a custom key encoding for this database.
    pub fn register_encoding(self, encoding: SharedEncoding) -> (r: Result<Self, Error>)
        ensures
            match r {
                Ok(o) => !registry::is_builtin(encoding.inner.name()) && o@ == (Opening {
                    encodings: self@.encodings.insert(encoding.inner.name(), encoding),
                    ..self@
                }),
                Err(e) => registry::is_builtin(encoding.inner.name()) && e.kind()
                    == ErrorKind::InvalidArgument,
            },
    {
        let mut this = self;
        match this.encodings.register(encoding) {
            Ok(_) => Ok(this),
            Err(e) => Err(e),
        }
    }

    /// Registers a custom page filter for this database.
    pub fn register_filter(self, filter: SharedFilter) -> (r: Self)
        ensures
            r@ == (Opening {
                filters: self@.filters.insert(filter.inner.name(), filter),
                ..self@
            }),
    {
        let mut this = self;
        this.filters.register(filter);
        this
    }

    /// Opens a database held entirely in memory.
    ///
    /// The image becomes the database's, and is not charged to the memory budget: it is what
    /// is being read, the way a file on disk is, and the budget bounds the reading. A few
    /// kilobytes of budget over an image of a few megabytes is a normal thing to ask for and
    /// is not refused.
    pub fn open_bytes(&self, bytes: Vec<u8>) -> (r: Result<Database, Error>)
        ensures
            match r {
                Ok(db) => verdict(bytes@, self@) is None && opened(
                    &db,
                    db.spec_store().spec_source(),
                    self@,
                ) && db.spec_store().spec_source().inner.image() == bytes@
                    && db.spec_store().spec_source().inner.dependable(),
                Err(e) => refusal(bytes@, true, self@, e),
            },
    {
        self.open_source(SharedSource::memory(MemorySource::new(bytes)))
    }

    /// Resolves the filter of a file, and whether the budget is enough for it.
    fn filter_for(&self, catalog: &Catalog, budget: &Arc<Budget>) -> (r: Result<
        Option<SharedFilter>,
        Error,
    >)
        requires
            budget.spec_limit() == self@.memory_budget,
        ensures
            match r {
                Ok(None) => catalog@.filters.len() == 0,
                Ok(Some(f)) => {
                    &&& catalog@.filters.len() == 1
                    &&& filter_named(self@.filters, catalog@.filters[0], f)
                    &&& exists|w: u64| #[trigger]
                        said_to_need(f, w) && affords(self@, catalog.page_size as int, w as int)
                },
                Err(e) => {
                    ||| catalog@.filters.len() > 1 && e.kind() == ErrorKind::Unsupported
                    ||| catalog@.filters.len() == 1 && !self@.filters.contains_key(
                        catalog@.filters[0],
                    ) && catalog@.filters[0] != "DryDB.ZstdCompression"@ && e.kind()
                        == ErrorKind::UnknownFilter
                    ||| catalog@.filters.len() == 1 && e.kind() == ErrorKind::InvalidArgument
                        && exists|f: SharedFilter| #[trigger]
                        filter_named(self@.filters, catalog@.filters[0], f) && filter_short(
                            self@,
                            catalog.page_size as int,
                            f,
                        )
                },
            },
    {
        let n = catalog.filters.len();
        if n == 0 {
            return Ok(None);
        }
        if n > 1 {
            return Err(
                Error::from_text(
                    ErrorKind::Unsupported,
                    crate::error::message_with(
                        "the file declares ",
                        n as u64,
                        " page filters; a multi-filter file can be neither written nor read",
                    ),
                ),
            );
        }
        let filter = match self.filters.resolve(catalog.filters[0].as_str()) {
            Ok(f) => f,
            Err(e) => return Err(e),
        };
        // Asking the filter what it needs costs memory in its own right: the zstd filter
        // measures its decompression context by making one. Reserve the question before
        // asking it, so a budget that cannot afford the filter is refused before anything
        // has been allocated for it.
        let asking = filter.inner.probe_bytes();
        proof {
            assert(filter_named(self@.filters, catalog@.filters[0], filter));
            assert(said_to_cost(filter, asking));
        }
        match budget.try_reserve(asking) {
            Ok(probe) => {
                let working = filter.inner.working_set_bytes();
                let_go(probe);
                proof {
                    assert(said_to_need(filter, working));
                }
                match self.check_working_set(catalog.page_size, working) {
                    Ok(_) => Ok(Some(filter)),
                    Err(e) => {
                        proof {
                            assert(filter_short(self@, catalog.page_size as int, filter));
                        }
                        Err(e)
                    },
                }
            },
            Err(e) => {
                proof {
                    assert(budget.asked(asking, Err::<(), Error>(e)));
                    assert(budget.refused(asking));
                    assert(filter_short(self@, catalog.page_size as int, filter));
                }
                Err(self.filter_too_large("up to ", asking))
            },
        }
    }

    /// Whether one page can be decoded within the budget by a filter that needs this much
    /// memory of its own: the largest decoded page, the page as it is stored, and that.
    pub fn check_working_set(&self, page_size: usize, working: u64) -> (r: Result<(), Error>)
        ensures
            match r {
                Ok(_) => affords(self@, page_size as int, working as int),
                Err(e) => !affords(self@, page_size as int, working as int) && e.kind()
                    == ErrorKind::InvalidArgument,
            },
    {
        let needed: u128 = self.limits.max_decoded_page_bytes as u128 + BUFFER_OVERHEAD as u128
            + page_size as u128 + working as u128;
        if needed <= self.memory_budget as u128 {
            Ok(())
        } else {
            Err(self.filter_too_large("", working))
        }
    }

    /// What is said of a filter that the budget is too small for.
    fn filter_too_large(&self, about: &str, needs: u64) -> (r: Error)
        ensures
            r.kind() == ErrorKind::InvalidArgument,
    {
        Error::invalid_words(
            Words::new("this file is page filtered, so decoding one page can reserve up to the ")
                .number(self.limits.max_decoded_page_bytes as u64)
                .say(" byte decoded page limit plus the ")
                .say(about)
                .number(needs)
                .say(" bytes the filter needs for itself; that does not fit in a ")
                .number(self.memory_budget)
                .say(
                " byte memory budget. Raise the budget or lower `Limits::max_decoded_page_bytes`.",
            ),
        )
    }

    /// Opens the tables of a catalog.
    fn open_tables(
        &self,
        tables: &Vec<TableDescriptor>,
        store: &Arc<PageStore>,
        charge: &Arc<Charge>,
    ) -> (r: Result<Vec<Arc<TableInner>>, Error>)
        ensures
            match r {
                Ok(l) => tables_verdict(catalog::table_models(tables@), self@.encodings) is None
                    && l@.len() == tables@.len() && forall|i: int|
                    0 <= i < l@.len() ==> (#[trigger] l@[i]).opened(
                        tables@[i],
                        *store,
                        self@.encodings,
                    ) && l@[i].validates(self@.validate_digests) && l@[i].shares(*charge),
                Err(e) => tables_verdict(catalog::table_models(tables@), self@.encodings) == Some(
                    e.kind(),
                ),
            },
    {
        let ghost models = catalog::table_models(tables@);
        let mut l: Vec<Arc<TableInner>> = Vec::new();
        let mut i: usize = 0;
        while i < tables.len()
            invariant
                i <= tables@.len(),
                models == catalog::table_models(tables@),
                l@.len() == i,
                tables_verdict(models.subrange(0, i as int), self@.encodings) is None,
                forall|j: int|
                    0 <= j < i ==> (#[trigger] l@[j]).opened(tables@[j], *store, self@.encodings)
                        && l@[j].validates(self@.validate_digests) && l@[j].shares(*charge),
            decreases tables@.len() - i,
        {
            let ghost k = i as int;
            proof {
                let fore = models.subrange(0, k + 1);
                assert(fore.drop_last() =~= models.subrange(0, k));
                assert(fore.last() == tables@[k]@);
            }
            match TableInner::build(
                &tables[i],
                store,
                &self.encodings,
                self.validate_digests,
                charge,
            ) {
                Ok(t) => {
                    l.push(Arc::new(t));
                },
                Err(e) => {
                    proof {
                        lemma_tables_verdict(models, self@.encodings, k + 1);
                    }
                    return Err(e);
                },
            }
            i += 1;
        }
        proof {
            assert(models.subrange(0, i as int) =~= models);
        }
        Ok(l)
    }

    /// Opens a database over any [`PageSource`].
    pub fn open_source(&self, source: SharedSource) -> (r: Result<Database, Error>)
        ensures
            match r {
                Ok(db) => verdict(source.inner.image(), self@) is None && opened(
                    &db,
                    source,
                    self@,
                ),
                Err(e) => refusal(
                    source.inner.image(),
                    source.inner.dependable(),
                    self@,
                    e,
                ),
            },
    {
        let ghost image = source.inner.image();
        // The 26-byte header comes first, because the checks that decide whether this file
        // can be opened at all need its page size.
        let header = match read_header(&**source.inner) {
            Ok(h) => h,
            Err(e) => return Err(e),
        };
        let least = minimum_budget(header.page_size, self.directory_chunk_entries);
        if self.memory_budget < least {
            return Err(
                Error::from_text(
                    ErrorKind::InvalidArgument,

                    Words::new("memory budget of ")
                        .number(self.memory_budget)
                        .say(" bytes is below the ")
                        .number(least)
                        .say(" bytes a search of a ")
                        .number(header.page_size as u64)
                        .say(" byte page file needs")
                        .end(),
                ),
            );
        }
        // Everything after the header is charged, including the buffer it is read into and
        // the descriptors parsed out of it.
        let budget = Budget::new(self.memory_budget);
        let (mut catalog_charge, catalog) = match read_catalog(
            &**source.inner,
            &header,
            self.limits.max_catalog_bytes,
            &budget,
        ) {
            Ok(c) => c,
            Err(e) => return Err(e),
        };
        let ghost model = catalog@;
        let file_size = match source.inner.size() {
            Ok(n) => n,
            Err(_) => return Err(Error::io("cannot determine the file size")),
        };
        let (dir_start, dir_end) = match header.directory_span() {
            Ok(span) => span,
            Err(e) => return Err(e),
        };
        if dir_end > file_size {
            return Err(
                Error::corrupt_words(
                    Words::new("page directory spans ")
                        .number(dir_start)
                        .say("..")
                        .number(dir_end)
                        .say(" but the file is ")
                        .number(file_size)
                        .say(" bytes"),
                ),
            );
        }
        if catalog.descriptor_end > dir_start {
            return Err(
                Error::corrupt_words(
                    Words::new("table descriptors end at ")
                        .number(catalog.descriptor_end)
                        .say(" but the page directory starts at ")
                        .number(dir_start),
                ),
            );
        }
        let filter = match self.filter_for(&catalog, &budget) {
            Ok(f) => f,
            Err(e) => return Err(e),
        };
        let metrics = Arc::new(Metrics::new());
        let wanted = match self.cache_capacity {
            Some(n) => n,
            None => self.memory_budget / 4 * 3,
        };
        let cache_capacity = if wanted > self.memory_budget {
            self.memory_budget
        } else {
            wanted
        };
        // Reserved before the shard array exists, not after: the number of shards comes from
        // the caller and the array is allocated once per database.
        let shards = affordable_shards(self.cache_shards, self.memory_budget);
        let store_charge = match budget.try_reserve(PageCache::bookkeeping_bytes(shards)) {
            Ok(c) => c,
            Err(e) => {
                return Err(e);
            },
        };
        let directory = PageDirectory::new(
            source.clone(),
            catalog.directory_position,
            catalog.page_count,
            self.directory_chunk_entries,
            self.directory_chunks,
            Arc::clone(&budget),
            Arc::clone(&metrics),
        );
        let store = Arc::new(
            PageStore::new(
                PageStoreParts {
                    source: source.clone(),
                    directory,
                    filter,
                    budget: Arc::clone(&budget),
                    limits: self.limits,
                    metrics: Arc::clone(&metrics),
                    directory_base: catalog.directory_position,
                    cache_capacity,
                    cache_shards: shards,
                    charge: store_charge,
                },
            ),
        );
        // Reserved before the handles are built, not after: a catalog that fits only once
        // must not be copied three more times first.
        proof {
            assert(catalog::table_models(catalog.tables@) == catalog@.tables);
            catalog::lemma_catalog_price(catalog@);
            assert(wants(image, self@, handles_cost(catalog.tables@)));
        }
        match catalog_charge.grow(handle_footprint(&catalog.tables)) {
            Ok(_) => {},
            Err(e) => return Err(e),
        }
        let catalog_charge = Arc::new(catalog_charge);
        let tables = match self.open_tables(&catalog.tables, &store, &catalog_charge) {
            Ok(l) => l,
            Err(e) => return Err(e),
        };
        let db = Database {
            catalog: Arc::new(catalog),
            store,
            tables,
            budget,
            metrics,
            catalog_charge,
        };
        Ok(db)
    }
}

/// What tables cost in handles: each text its bytes and 192, the list of secondary indexes eighty
/// bytes for each, all of it three times over, and 768 bytes for each handle and two more.
pub proof fn lemma_handles_cost(l: Seq<TableDescriptor>, n: nat, d: IndexDescriptor)
    requires
        n < l.len(),
        d == l[n as int].primary,
        l[n as int].secondaries@.len() == 0,
    ensures
        index_cost(d) == encode_utf8(d.name@).len() + encode_utf8(d.key_encoding_id@).len() + 384,
        tables_cost(l, 0) == 0 && handles(l, 0) == 0,
        tables_cost(l, n + 1) - tables_cost(l, n) == encode_utf8(l[n as int].name@).len()
            + encode_utf8(d.name@).len() + encode_utf8(d.key_encoding_id@).len() + 768,
        handles(l, n + 1) - handles(l, n) == 1,
        3 * tables_cost(l, l.len()) + 768 * (handles(l, l.len()) + 2) <= u64::MAX
            && tables_cost(l, l.len()) >= 0 && handles(l, l.len()) >= 0 ==> handles_cost(l) == 3
            * tables_cost(l, l.len()) + 768 * (handles(l, l.len()) + 2),
{
}

/// What one more secondary index costs, and that it takes one handle more.
pub proof fn lemma_index_handle_cost(t: TableDescriptor, l: Seq<IndexDescriptor>, n: nat)
    requires
        n < l.len(),
    ensures
        indexes_cost(l, 0) == 0,
        indexes_cost(l, n + 1) - indexes_cost(l, n) == encode_utf8(l[n as int].name@).len()
            + encode_utf8(l[n as int].key_encoding_id@).len() + 384,
        table_cost(t) == encode_utf8(t.name@).len() + index_cost(t.primary) + 80
            * t.secondaries@.len() + 384 + indexes_cost(t.secondaries@, t.secondaries@.len()),
{
}

/// A filter that was registered goes before the one that comes with the library, and there is no
/// other under any name.
pub proof fn lemma_filter_named(
    filters: Map<Seq<char>, SharedFilter>,
    id: Seq<char>,
    f: SharedFilter,
)
    requires
        filter_named(filters, id, f),
    ensures
        filters.contains_key(id) ==> f == filters[id],
        id != "DryDB.ZstdCompression"@ ==> filters.contains_key(id),
        !filters.contains_key(id) ==> f.inner.name() == id && forall|s: Seq<u8>| #[trigger]
            f.inner.content(s) == crate::filter::zstd_content(s),
{
}

} // verus!

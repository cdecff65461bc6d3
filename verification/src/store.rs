//! Page loading: directory lookup, positional read, filter decode, validation, caching.

use std::ops::Range;
use std::sync::atomic::{AtomicBool, AtomicU64, Ordering};
use std::sync::Arc;

use vstd::prelude::*;
use vstd::rwlock::RwLock;
use vstd::slice::*;

use crate::budget::{let_go, Budget, Charge, Ledger, BUFFER_OVERHEAD};
use crate::cache::{self, PageCache};
use crate::directory::{self, PageDirectory};
use crate::error::{BudgetInfo, Error, ErrorKind, Words};
use crate::filter::{PageFilter, SharedFilter};
use crate::format::bytes::{self, put_le4, put_slice, read_i32, zeroed};
use crate::format::node::{self, NodeKind, PageView};
use crate::format::{FileOffset, PageOrdinal, PAGE_LENGTH_LEN, PAGE_PREFIX_LEN};
use crate::io::{read_exact_at, PageSource, SharedSource};
use crate::locked;
use crate::metrics::Metrics;
use crate::model::Pages;
use crate::page::{PageBuffer, PagePin};
use crate::roots::{self, Kept, RetainedRoots, RootsRule};

verus! {

broadcast use crate::format::group_format;

/// How many eviction rounds a reservation attempts beyond what there is to evict.
pub const EVICT_ROUNDS: usize = 16;

/// Free budget, in multiples of the page being retained, required before the store will
/// hold a page for the life of the database.
pub const RETAIN_HEADROOM_PAGES: u64 = 8;

/// Hard limits that bound the work a single malformed page can cause.
#[derive(Debug, Clone, Copy)]
pub struct Limits {
    /// Largest page accepted as stored on disk.
    pub max_stored_page_bytes: usize,
    /// Largest page accepted after page filters have decoded it.
    ///
    /// A filter that cannot say how large its output will be makes the reader reserve
    /// this much per page load, so on a filtered database it has to fit in the memory
    /// budget; opening one where it does not is rejected up front.
    pub max_decoded_page_bytes: usize,
    /// Largest header plus descriptor section accepted while opening.
    pub max_catalog_bytes: usize,
    /// Deepest root-to-leaf descent accepted before a tree is called cyclic.
    pub max_tree_depth: usize,
}

impl Default for Limits {
    fn default() -> (r: Self)
        ensures
            r.max_stored_page_bytes == 0x400_0000,
            r.max_decoded_page_bytes == 0x80_0000,
            r.max_catalog_bytes == 0x80_0000,
            r.max_tree_depth == 64,
    {
        Limits {
            max_stored_page_bytes: 0x400_0000,
            max_decoded_page_bytes: 0x80_0000,
            max_catalog_bytes: 0x80_0000,
            max_tree_depth: 64,
        }
    }
}

/// What decides the pages of a file: its bytes and where its directory is, the filter its
/// pages went through, and how large a page may be.
pub struct PageFile {
    pub section: directory::Section,
    pub filter: Option<SharedFilter>,
    pub max_stored: int,
    pub max_decoded: int,
}

impl PageFile {
    /// Where a page that starts at `offset` has to end: at the page after it, or at the
    /// page directory. Nowhere, when the directory has no place for the page after it.
    pub open spec fn end_limit(self, ordinal: PageOrdinal, offset: int) -> Option<int> {
        let next = ordinal.get() + 1;
        if next >= self.section.count || next > u64::MAX {
            Some(self.section.base)
        } else {
            match self.section.offset(PageOrdinal::spec_new(next as u64)) {
                Some(n) => Some(
                    if n.get() > offset {
                        n.get() as int
                    } else {
                        self.section.base
                    },
                ),
                None => None,
            }
        }
    }

    /// How many bytes a page takes in the file, when that is within bounds.
    pub open spec fn stored_len(self, ordinal: PageOrdinal) -> Option<int> {
        match self.section.offset(ordinal) {
            Some(o) => {
                let at = o.get() as int;
                let len = bytes::i32_at(self.section.image, at);
                if at + PAGE_LENGTH_LEN <= self.section.image.len() && PAGE_PREFIX_LEN <= len
                    <= self.max_stored && at + len <= self.section.image.len() && (self.end_limit(
                    ordinal,
                    at,
                ) matches Some(end) && at + len <= end) {
                    Some(len)
                } else {
                    None
                }
            },
            None => None,
        }
    }

    /// How large the content of a payload may be.
    pub open spec fn payload_limit(self, f: SharedFilter, payload: Seq<u8>) -> int {
        match f.inner.announced(payload) {
            Some(n) => n as int,
            None => self.max_decoded,
        }
    }

    /// The page that stored bytes stand for.
    pub open spec fn decoded(self, stored: Seq<u8>) -> Option<Seq<u8>> {
        match self.filter {
            None => Some(stored),
            Some(f) => {
                let payload = stored.subrange(PAGE_PREFIX_LEN as int, stored.len() as int);
                match f.inner.content(payload) {
                    Some(raw) if raw.len() <= self.payload_limit(f, payload)
                        && self.payload_limit(f, payload) <= self.max_decoded => Some(
                        bytes::le4(PAGE_PREFIX_LEN + raw.len()) + stored.subrange(
                            4,
                            PAGE_PREFIX_LEN as int,
                        ) + raw,
                    ),
                    _ => None,
                }
            },
        }
    }

    /// The page of an ordinal, when there is one and it is sound.
    pub open spec fn page(self, ordinal: PageOrdinal) -> Option<Seq<u8>> {
        match self.stored_len(ordinal) {
            Some(len) => {
                let at = self.section.offset(ordinal)->Some_0.get() as int;
                match self.decoded(self.section.image.subrange(at, at + len)) {
                    Some(page) if node::page_ok(page) && node::entries_ok(page) => Some(page),
                    _ => None,
                }
            },
            None => None,
        }
    }

    /// The bytes of a page as they are stored.
    pub open spec fn stored_bytes(self, ordinal: PageOrdinal) -> Seq<u8> {
        let at = self.section.offset(ordinal)->Some_0.get() as int;
        self.section.image.subrange(at, at + self.stored_len(ordinal)->Some_0)
    }

    /// Whether decoding the stored bytes of a page may ask for this much memory at once: for the
    /// most its content may come to, for the page it comes to, and for what the filter needs.
    pub open spec fn decoding_wants(self, stored: Seq<u8>, n: u64) -> bool {
        self.filter matches Some(f) && {
            let payload = payload_of(stored);
            ||| n == crate::budget::capped(self.payload_limit(f, payload) + BUFFER_OVERHEAD)
            ||| f.inner.content(payload) matches Some(content) && n == crate::budget::capped(
                PAGE_PREFIX_LEN + content.len() + BUFFER_OVERHEAD,
            )
            ||| f.inner.needs(n)
            ||| f.inner.probes(n)
        }
    }

    /// The pages of the file, by ordinal.
    pub open spec fn pages(self) -> Pages {
        Map::new(|o: PageOrdinal| self.page(o) is Some, |o: PageOrdinal| self.page(o)->Some_0)
    }
}

/// What follows the prefix of a stored page, which a filter may have encoded.
pub open spec fn payload_of(stored: Seq<u8>) -> Seq<u8> {
    stored.subrange(PAGE_PREFIX_LEN as int, stored.len() as int)
}

/// Whether a pin holds the page of its ordinal, paid for on the budget.
pub open spec fn pin_good(file: PageFile, budget: Arc<Budget>, pin: PagePin) -> bool {
    file.page(pin.spec_ordinal()) == Some(pin@) && pin.paid(budget)
}

/// What one round of taking memory back gave: bytes of cached pages, a chunk of the page
/// directory, bytes of roots kept.
pub struct ReclaimRound {
    pub freed: u64,
    pub dropped: bool,
    pub released: u64,
}

impl ReclaimRound {
    /// Whether there was nothing to give.
    pub open spec fn idle(self) -> bool {
        self.freed == 0 && !self.dropped && self.released == 0
    }
}

/// The pieces a [`PageStore`] is assembled from.
pub struct PageStoreParts {
    pub source: SharedSource,
    pub directory: PageDirectory,
    pub filter: Option<SharedFilter>,
    pub budget: Arc<Budget>,
    pub limits: Limits,
    pub metrics: Arc<Metrics>,
    /// File offset of the page directory, which every page must sit before.
    pub directory_base: FileOffset,
    /// How many bytes of pages the cache retains at most.
    pub cache_capacity: u64,
    /// How many shards the cache is spread over.
    pub cache_shards: usize,
    /// The store's own fixed memory, reserved by the caller before the parts were built.
    pub charge: Charge,
}

/// Everything needed to turn a page ordinal into bytes.
///
/// The cached pages, the directory chunks and the roots kept are behind locks, and a lock that
/// goes away does not drop what it holds. What is still held when the last handle on a store
/// goes stays allocated; it is given back while the store is there, when a reservation needs it.
pub struct PageStore {
    source: SharedSource,
    directory: PageDirectory,
    cache: PageCache,
    filter: Option<SharedFilter>,
    budget: Arc<Budget>,
    limits: Limits,
    metrics: Arc<Metrics>,
    directory_base: u64,
    /// Root pages trees asked to keep, by tree.
    ///
    /// Held here rather than in each tree so that reclaiming can reach them: a tree that
    /// kept its own root would hold it past the point where a read needs the memory more,
    /// and no amount of evicting would get it back.
    retained_roots: RwLock<RetainedRoots, RootsRule>,
    /// Hands out the tree identities that mark a page as already checked.
    next_tree: AtomicU64,
    /// The store's own fixed memory, chiefly the cache's shard array.
    ///
    /// Held here rather than on the database because table and index handles keep the
    /// store alive on their own and can outlive the database they came from.
    charge: Charge,
}

impl PageStore {
    /// Whether the retained roots were `a` when they were taken, and were put back as `b`.
    pub closed spec fn passed(&self, a: RetainedRoots, b: RetainedRoots) -> bool {
        locked::passed(&self.retained_roots, a, b)
    }

    /// Whether the root kept for a tree was looked up, and this is what was found.
    pub open spec fn found_root(&self, tree: u64, r: Option<PagePin>) -> bool {
        exists|held: RetainedRoots|
            #[trigger] self.passed(held, held) && match r {
                Some(pin) => held.holds(tree, pin),
                None => !held.kept().contains_key(tree),
            }
    }

    /// Whether the root kept for a tree was let go of, with those of trees that are gone.
    pub open spec fn let_go_of(&self, tree: u64) -> bool {
        exists|a: RetainedRoots, b: RetainedRoots|
            #[trigger] self.passed(a, b) && b.purged(a, Some(tree)) && b.settled(
                self.spec_budget(),
            )
    }

    /// Whether a page was put in as the root kept for a tree, in place of the one before, or
    /// there was no memory for the table to take one more; those of trees that are gone went
    /// first.
    pub open spec fn kept_root(&self, tree: u64, alive: Arc<AtomicBool>, pin: PagePin) -> bool {
        exists|a: RetainedRoots, b: RetainedRoots, rest: RetainedRoots, kept: Kept|
            #[trigger] self.passed(a, b) && #[trigger] rest.purged(a, None) && #[trigger] b.took(
                rest,
                self.spec_budget(),
                tree,
                kept,
            ) && kept.spec_pin() == pin && kept.spec_alive() == alive
    }

    /// Whether every retained root was let go of, and they held this many bytes of page.
    pub open spec fn emptied(&self, bytes: u64) -> bool {
        exists|a: RetainedRoots, b: RetainedRoots|
            #[trigger] self.passed(a, b) && b.kept() == Map::<u64, Kept>::empty() && b.charged()
                == 0 && bytes == crate::budget::capped(roots::kept_bytes(a.kept()) as int)
    }

    /// What decides the pages of the file.
    pub closed spec fn file(&self) -> PageFile {
        PageFile {
            section: self.directory.section(),
            filter: self.filter,
            max_stored: self.limits.max_stored_page_bytes as int,
            max_decoded: self.limits.max_decoded_page_bytes as int,
        }
    }

    /// The pages of the file, by ordinal.
    pub open spec fn pages(&self) -> Pages {
        self.file().pages()
    }

    /// The bytes of the file.
    pub open spec fn image(&self) -> Seq<u8> {
        self.file().section.image
    }

    /// The source the pages are read from.
    pub closed spec fn spec_source(&self) -> SharedSource {
        self.source
    }

    /// The cache pages are kept in.
    pub closed spec fn spec_cache(&self) -> PageCache {
        self.cache
    }

    /// The page directory.
    pub closed spec fn spec_directory(&self) -> PageDirectory {
        self.directory
    }

    /// Whether a page was looked for in the cache and was not there.
    pub open spec fn not_cached(&self, o: PageOrdinal) -> bool {
        self.spec_cache().looked_up(o.get(), None)
    }

    /// Whether a page came from the cache, or was read and then listed in it, and was counted so.
    pub open spec fn had(&self, ordinal: PageOrdinal, pin: PagePin) -> bool {
        let counters = self.spec_cache().spec_metrics();
        ||| self.spec_cache().looked_up(ordinal.get(), Some(pin)) && counters.noted_hit()
        ||| {
            &&& counters.noted_miss()
            &&& self.read_in(ordinal, pin)
            &&& exists|bytes: u64| #[trigger] self.spec_cache().listed(ordinal.get(), pin, bytes)
        }
    }

    /// Whether pages were asked for room, and where the cache had none, the roots kept were.
    pub open spec fn reclaimed(&self, bytes: u64, r: u64) -> bool {
        exists|freed: u64|
            #[trigger] self.spec_cache().made_room(bytes, freed) && if freed > 0 {
                r == freed
            } else {
                self.emptied(r)
            }
    }

    /// Whether everything that holds memory was asked for room: the cache, then the page
    /// directory, then the roots kept, each where those before it had none.
    pub open spec fn reclaim_round(&self, bytes: u64, round: ReclaimRound) -> bool {
        &&& self.spec_cache().made_room(bytes, round.freed)
        &&& if round.freed > 0 {
            !round.dropped && round.released == 0
        } else {
            self.spec_directory().gave_up(round.dropped) && if round.dropped {
                round.released == 0
            } else {
                self.emptied(round.released)
            }
        }
        &&& self.spec_budget().refused(bytes)
    }

    /// Whether these rounds were gone through, each of which had something to give and none
    /// of which was enough.
    pub open spec fn reclaim_rounds(&self, bytes: u64, rounds: Seq<ReclaimRound>) -> bool {
        forall|k: int|
            0 <= k < rounds.len() ==> self.reclaim_round(bytes, #[trigger] rounds[k])
                && !rounds[k].idle()
    }

    /// Whether a reservation was given up: nothing was left to give, or as many rounds had
    /// been gone through as there were pages and chunks to give, and sixteen.
    pub open spec fn spent(&self, bytes: u64) -> bool {
        ||| self.reclaim_round(
            bytes,
            ReclaimRound { freed: 0, dropped: false, released: 0 },
        )
        ||| exists|rounds: Seq<ReclaimRound>, pages: usize, chunks: usize|
            #[trigger] self.reclaim_rounds(bytes, rounds) && #[trigger] self.spec_cache().counted(
                pages,
            ) && #[trigger] self.spec_directory().counted(chunks) && rounds.len() == (if pages
                + chunks + EVICT_ROUNDS > usize::MAX {
                usize::MAX as int
            } else {
                pages + chunks + EVICT_ROUNDS
            })
    }

    /// Whether memory was reserved, or could not be: the budget did not have it, and either
    /// never can or had nothing left to take back.
    pub open spec fn reserved(&self, bytes: u64, r: Result<Charge, Error>) -> bool {
        match r {
            Ok(c) => c.spec_bytes() == bytes && c.owner() == self.spec_budget()
                && self.spec_budget().asked(bytes, Ok::<(), Error>(())),
            Err(e) => self.spec_budget().asked(bytes, Err::<(), Error>(e)) && (
            bytes > self.spec_budget().spec_limit() || self.spent(bytes)),
        }
    }

    /// Whether an error says that there was no memory for this much.
    pub open spec fn lacks(&self, bytes: u64, e: Error) -> bool {
        self.reserved(bytes, Err::<Charge, Error>(e))
    }

    /// Whether there was once no memory for this much.
    pub open spec fn lacked(&self, bytes: u64) -> bool {
        exists|e: Error| #[trigger] self.lacks(bytes, e)
    }

    /// Whether an error says that there was no memory for this much, or for the part of it that
    /// was not there yet.
    pub open spec fn short_of(&self, most: u64, e: Error) -> bool {
        exists|n: u64| #[trigger] self.lacks(n, e) && n <= most
    }

    /// What there was no memory for at all was all that it was short of.
    pub(crate) proof fn lemma_short(&self, bytes: u64, e: Error)
        requires
            self.lacks(bytes, e),
        ensures
            self.short_of(bytes, e),
    {
    }

    /// Short of some memory is short of more.
    pub(crate) proof fn lemma_short_most(&self, most: u64, more: u64, e: Error)
        requires
            self.short_of(most, e),
            most <= more,
        ensures
            self.short_of(more, e),
    {
        let n = choose|n: u64| #[trigger] self.lacks(n, e) && n <= most;
        assert(self.lacks(n, e) && n <= more);
    }

    /// The counters of the page path.
    pub closed spec fn spec_metrics(&self) -> Arc<Metrics> {
        self.metrics
    }

    /// The budget everything is charged on.
    pub closed spec fn spec_budget(&self) -> Arc<Budget> {
        self.budget
    }

    /// What the store's own fixed memory is charged.
    pub closed spec fn spec_charge(&self) -> Charge {
        self.charge
    }

    /// The limits.
    pub closed spec fn spec_limits(&self) -> Limits {
        self.limits
    }

    /// Whether a page that the file has is never taken for damaged: the filter needs no memory
    /// of its own, and the directory has a place in memory and in a file.
    pub open spec fn steady(&self) -> bool {
        &&& self.spec_directory().addressable()
        &&& self.file().filter matches Some(f) ==> f.inner.dependable()
    }

    /// Whether a page that the file has can always be read, memory allowing: it is never taken
    /// for damaged, and the source does not fail.
    pub open spec fn dependable(&self) -> bool {
        self.steady() && self.reads_dependably()
    }

    /// Whether an error says nothing of the file: there was no memory, or the source failed.
    pub open spec fn excused(&self, e: Error) -> bool {
        e.is_refusal() || e.kind() == ErrorKind::Io && !self.reads_dependably()
    }

    /// Whether the stored bytes of every page can be had: the source does not fail, and the
    /// directory is in the file and has a place in memory.
    pub closed spec fn reads_dependably(&self) -> bool {
        &&& self.source.inner.dependable()
        &&& self.directory.section().inside()
        &&& self.directory.addressable()
    }

    /// What a dependable store rests on, and where its page limits come from.
    pub proof fn lemma_parts(&self)
        ensures
            self.reads_dependably() ==> self.spec_source().inner.dependable(),
            self.file().max_stored == self.spec_limits().max_stored_page_bytes,
            self.file().max_decoded == self.spec_limits().max_decoded_page_bytes,
    {
    }

    /// Pages of a file are pages that a reader accepts.
    pub proof fn lemma_pages_sound(&self, o: PageOrdinal)
        ensures
            self.pages().contains_key(o) ==> node::page_ok(self.pages()[o]) && node::entries_ok(
                self.pages()[o],
            ) && o.get() < self.file().section.count,
    {
    }

    /// Whether reading a page may ask for this much memory at once: for the part of the directory
    /// its slot is in or the slot after it, for its marker in the cache, for its bytes as they
    /// are stored, and for decoding them.
    pub open spec fn page_wants(&self, o: PageOrdinal, n: u64) -> bool {
        let d = self.spec_directory();
        ||| o.get() < self.file().section.count && n == d.chunk_cost(o)
        ||| o.get() + 1 < self.file().section.count && n == d.chunk_cost(
            PageOrdinal::spec_new((o.get() + 1) as u64),
        )
        ||| self.file().section.offset(o) matches Some(at) && {
            let len = bytes::i32_at(self.image(), at.get() as int);
            PAGE_PREFIX_LEN <= len <= self.file().max_stored && n == crate::budget::capped(
                len + BUFFER_OVERHEAD,
            )
        }
        ||| self.file().stored_len(o) is Some && self.file().decoding_wants(
            self.file().stored_bytes(o),
            n,
        )
        ||| exists|growth: u64|
            #[trigger] self.spec_cache().missed(o.get(), growth, false) && n
                == PageCache::marker_cost(growth)
    }

    /// Whether an error says that a decoded page fits no buffer, where the limits let it be so
    /// large.
    pub open spec fn fits_nowhere(&self, e: Error) -> bool {
        &&& e.is_refusal()
        &&& e.budget_info() matches Some(info)
        &&& info.limit == self.spec_budget().spec_limit()
        &&& info.requested == u64::MAX
        &&& !info.retryable
        &&& self.file().filter is Some
        &&& self.spec_limits().max_decoded_page_bytes > usize::MAX - PAGE_PREFIX_LEN
    }

    /// Whether an error says that other threads kept a shard of the cache from taking one more
    /// page.
    pub open spec fn crowded_out(&self, o: PageOrdinal, e: Error) -> bool {
        &&& e.is_refusal()
        &&& e.budget_info() matches Some(info)
        &&& info.limit == self.spec_budget().spec_limit()
        &&& info.retryable
        &&& self.spec_cache().crowded_out(o.get(), info.requested)
    }

    /// Whether an error says that there was no memory for reading a page, and there was none:
    /// the budget was asked for something that reading it takes and did not have it, no buffer
    /// could have held it, or other threads kept its shard from taking it in.
    pub open spec fn denied_at(&self, o: PageOrdinal, e: Error) -> bool {
        ||| exists|n: u64|
            #[trigger] self.spec_budget().asked(n, Err::<(), Error>(e)) && self.page_wants(o, n)
        ||| self.fits_nowhere(e)
        ||| self.crowded_out(o, e)
    }

    /// Whether an error says that there was no memory for reading some page of the file.
    pub open spec fn denied(&self, e: Error) -> bool {
        exists|o: PageOrdinal| #[trigger] self.denied_at(o, e)
    }

    /// A refusal is the same refusal whatever page it is about.
    proof fn lemma_denied(&self, o: PageOrdinal, e: Error, about: Error)
        requires
            self.denied_at(o, e),
            about.kind() == e.kind(),
            about.budget_info() == e.budget_info(),
        ensures
            self.denied_at(o, about),
    {
        let budget = self.spec_budget();
        if exists|n: u64|
            #[trigger] budget.asked(n, Err::<(), Error>(e)) && self.page_wants(o, n) {
            let n = choose|n: u64|
                #[trigger] budget.asked(n, Err::<(), Error>(e)) && self.page_wants(o, n);
            budget.lemma_asked(n, e, about);
        }
    }

    /// Whether decoding the payload of a page was tried, and failed.
    pub open spec fn decode_failed(&self, o: PageOrdinal) -> bool {
        &&& self.file().filter matches Some(f)
        &&& self.file().stored_len(o) is Some
        &&& exists|room: usize| #[trigger]
            f.inner.gave_up(payload_of(self.file().stored_bytes(o)), room)
    }

    /// Whether an error is one that looking a page up in the directory may report.
    pub open spec fn unlisted(&self, o: PageOrdinal, e: Error, present: bool) -> bool {
        ||| self.spec_directory().denied(o, e) && self.spec_directory().spec_budget()
            == self.spec_budget() && self.spec_directory().section() == self.file().section
        ||| e.kind() == ErrorKind::Io && !(present && self.reads_dependably())
        ||| e.is_corrupt() && (!present || !self.spec_directory().addressable())
    }

    /// Whether a page that is present, or not, may be called damaged: it is not there, its filter
    /// was given it and did not decode it, or the directory has no place in memory or in a file.
    pub open spec fn damaged(&self, o: PageOrdinal, present: bool) -> bool {
        ||| !present
        ||| self.decode_failed(o) && (self.file().filter matches Some(f) && !f.inner.dependable())
        ||| !self.spec_directory().addressable()
    }

    /// Whether an error is one that reading a page of the file may report: memory or the
    /// source, or anything that is wrong with the page where something is. A read that fails is
    /// never taken for damage.
    pub open spec fn failure(&self, o: PageOrdinal, e: Error, present: bool) -> bool {
        ||| self.denied_at(o, e)
        ||| e.kind() == ErrorKind::Io && !(present && self.reads_dependably())
        ||| e.is_corrupt() && self.damaged(o, present)
    }

    /// Whether an error is one that reading some page of the file may report.
    pub open spec fn read_failed(&self, e: Error) -> bool {
        exists|o: PageOrdinal| #[trigger] self.failure(o, e, self.pages().contains_key(o))
    }

    spec fn good(file: PageFile, budget: Arc<Budget>) -> spec_fn(u64, PagePin) -> bool {
        |o: u64, pin: PagePin| pin.spec_ordinal() == PageOrdinal::spec_new(o) && pin_good(file, budget, pin)
    }

    #[verifier::type_invariant]
    spec fn ruled(&self) -> bool {
        &&& self.retained_roots.pred() == (RootsRule { file: self.file(), budget: self.budget })
        &&& self.cache.spec_budget() == self.budget
        &&& self.cache.good() == PageStore::good(self.file(), self.budget)
        &&& self.directory.spec_source() == self.source
        &&& self.directory.section().image == self.source.inner.image()
        &&& self.directory.section().base == self.directory_base
        &&& self.directory.spec_budget() == self.budget
    }

    /// Assembles a store.
    pub fn new(parts: PageStoreParts) -> (r: PageStore)
        requires
            parts.directory.spec_source() == parts.source,
            parts.directory.section().image == parts.source.inner.image(),
            parts.directory.section().base == parts.directory_base.get(),
            parts.directory.spec_budget() == parts.budget,
        ensures
            r.file() == (PageFile {
                section: parts.directory.section(),
                filter: parts.filter,
                max_stored: parts.limits.max_stored_page_bytes as int,
                max_decoded: parts.limits.max_decoded_page_bytes as int,
            }),
            r.spec_source() == parts.source,
            r.spec_budget() == parts.budget,
            r.spec_limits() == parts.limits,
            r.spec_directory() == parts.directory,
            r.spec_metrics() == parts.metrics,
            r.spec_charge() == parts.charge,
            r.spec_cache().spec_metrics() == parts.metrics,
            r.spec_cache().spec_capacity() == parts.cache_capacity,
            r.spec_cache().spec_shards() == cache::spec_shard_count(parts.cache_shards),
            r.dependable() == (parts.source.inner.dependable() && (parts.filter matches Some(f)
                ==> f.inner.dependable()) && parts.directory.section().inside()
                && parts.directory.addressable()),
    {
        let ghost file = PageFile {
            section: parts.directory.section(),
            filter: parts.filter,
            max_stored: parts.limits.max_stored_page_bytes as int,
            max_decoded: parts.limits.max_decoded_page_bytes as int,
        };
        let ghost good = PageStore::good(file, parts.budget);
        let cache = PageCache::holding(
            parts.cache_capacity,
            parts.cache_shards,
            parts.metrics.clone(),
            parts.budget.clone(),
            Ghost(good),
        );
        let retained_roots = RwLock::new(
            RetainedRoots::new(),
            Ghost(RootsRule { file, budget: parts.budget }),
        );
        PageStore {
            source: parts.source,
            directory: parts.directory,
            cache,
            filter: parts.filter,
            budget: parts.budget,
            limits: parts.limits,
            metrics: parts.metrics,
            directory_base: parts.directory_base.get(),
            retained_roots,
            next_tree: AtomicU64::new(1),
            charge: parts.charge,
        }
    }

    /// The page cache.
    pub fn cache(&self) -> (r: &PageCache)
        ensures
            *r == self.spec_cache(),
    {
        &self.cache
    }

    /// The counters.
    pub fn metrics(&self) -> (r: &Arc<Metrics>)
        ensures
            *r == self.spec_metrics(),
    {
        &self.metrics
    }

    /// Whether the number of the next tree was asked for and put on, and this is what it was.
    pub closed spec fn numbered(&self, id: u64) -> bool {
        call_ensures(AtomicU64::fetch_add, (&self.next_tree, 1u64, Ordering::Relaxed), id)
    }

    /// An identity for a tree. Starts at one: zero means "checked by nobody", which is the
    /// state a freshly read page is in.
    pub(crate) fn tree_identity(&self) -> (r: u64)
        ensures
            self.numbered(r),
    {
        self.next_tree.fetch_add(1, Ordering::Relaxed)
    }

    /// The root page a tree asked to keep, if it is still kept.
    pub fn retained_root(&self, tree: u64) -> (r: Option<PagePin>)
        ensures
            r matches Some(pin) ==> pin_good(self.file(), self.spec_budget(), pin),
            self.found_root(tree, r),
    {
        proof {
            use_type_invariant(self);
        }
        let (held, handle) = self.retained_roots.acquire_write();
        let ghost (taken, seen) = (handle, held);
        let found = held.find(tree, Ghost(self.retained_roots.pred()));
        handle.release_write(held);
        proof {
            assert(locked::traded(&self.retained_roots, seen, seen, taken));
            assert(self.passed(seen, seen));
        }
        found
    }

    /// Keeps a tree's root page for as long as the budget has room to spare.
    ///
    /// The caller has already checked that the page itself fits with room left over;
    /// what is reserved here is the table that holds it. Failing to reserve just means
    /// the page is not kept, which costs a cache lookup and nothing else.
    pub fn retain_root(&self, tree: u64, alive: &Arc<AtomicBool>, pin: PagePin)
        requires
            pin_good(self.file(), self.spec_budget(), pin),
        ensures
            self.kept_root(tree, *alive, pin),
    {
        proof {
            use_type_invariant(self);
        }
        let ghost rule = self.retained_roots.pred();
        let (mut held, handle) = self.retained_roots.acquire_write();
        let ghost (before, taken) = (held, handle);
        held.purge(None, &self.budget, Ghost(rule));
        let ghost rest = held;
        let kept = Kept::new(pin, alive.clone());
        let ghost entry = kept;
        held.take_in(tree, kept, &self.budget, Ghost(rule));
        let ghost after = held;
        handle.release_write(held);
        proof {
            assert(locked::traded(&self.retained_roots, before, after, taken));
            assert(self.passed(before, after));
            assert(rest.purged(before, None));
            assert(after.took(rest, self.spec_budget(), tree, entry));
        }
    }

    /// Lets go of one tree's retained root.
    pub fn release_root(&self, tree: u64)
        ensures
            self.let_go_of(tree),
    {
        proof {
            use_type_invariant(self);
        }
        let (mut held, handle) = self.retained_roots.acquire_write();
        let ghost (before, taken) = (held, handle);
        held.purge(Some(tree), &self.budget, Ghost(self.retained_roots.pred()));
        let ghost after = held;
        handle.release_write(held);
        proof {
            assert(locked::traded(&self.retained_roots, before, after, taken));
            assert(self.passed(before, after));
        }
    }

    /// Lets go of every retained root. Returns how many bytes of page they held.
    ///
    /// Counted the way the cache counts an eviction: the bytes of what was let go, which
    /// return to the budget once nothing else is still reading the page.
    fn release_roots(&self) -> (r: u64)
        ensures
            self.emptied(r),
    {
        proof {
            use_type_invariant(self);
        }
        // Taken out from under the lock so the pages are freed after it is released:
        // dropping the last pin gives its bytes back to the budget. The table goes with
        // them, and its charge with it.
        let (held, handle) = self.retained_roots.acquire_write();
        let ghost (taken, seen) = (handle, held);
        let none = RetainedRoots::new();
        let ghost after = none;
        handle.release_write(none);
        proof {
            assert(locked::traded(&self.retained_roots, seen, after, taken));
            assert(self.passed(seen, after));
        }
        held.held_bytes()
    }

    /// Frees memory held on this budget for a caller that needs it more, most
    /// expendable first. Returns how many bytes were let go.
    ///
    /// The page directory reclaims through here as well as the page store: the two draw
    /// on one budget, so a directory chunk that does not fit has to be able to take back
    /// what the pages are holding, including a root kept for a tree.
    fn reclaim_pages(&self, bytes: u64) -> (r: u64)
        ensures
            self.reclaimed(bytes, r),
    {
        let freed = self.cache.evict_bytes(bytes);
        proof {
            assert(self.spec_cache().made_room(bytes, freed));
        }
        if freed > 0 {
            return freed;
        }
        // Roots last: they are the pages every search starts from, so they go only when
        // there is nothing else to give.

        self.release_roots()
    }

    /// The budget everything is charged on.
    pub fn budget(&self) -> (r: &Arc<Budget>)
        ensures
            *r == self.spec_budget(),
    {
        &self.budget
    }

    /// Whether the budget has room to hold `bytes` indefinitely without squeezing the
    /// pages a search needs: eight times that much is free right now.
    ///
    /// Used before retaining anything for the life of the database, so that a tight
    /// budget is never permanently reduced by bookkeeping.
    pub fn has_headroom_for(&self, bytes: u64) -> (r: bool)
        ensures
            r ==> RETAIN_HEADROOM_PAGES * bytes <= self.spec_budget().spec_limit(),
            exists|l: Ledger|
                #[trigger] self.spec_budget().stood_at(l) && r == (RETAIN_HEADROOM_PAGES * bytes
                    + l.used <= self.spec_budget().spec_limit()),
    {
        let reserve: u128 = 8 * (bytes as u128);
        let used = self.budget.in_use();
        proof {
            let l = choose|l: Ledger| #[trigger] self.budget.stood_at(l) && used == l.used;
            assert(self.spec_budget().stood_at(l));
        }
        let free = self.budget.limit() - used;
        free as u128 >= reserve
    }

    /// The limits.
    pub fn limits(&self) -> (r: Limits)
        ensures
            r == self.spec_limits(),
    {
        self.limits
    }

    /// Number of pages in the file.
    pub fn page_count(&self) -> (r: u64)
        ensures
            r == self.file().section.count,
    {
        self.directory.page_count()
    }

    /// The byte source, for streaming readers that bypass the cache.
    pub fn source(&self) -> (r: &SharedSource)
        ensures
            *r == self.spec_source(),
            r.inner.image() == self.image(),
    {
        proof {
            use_type_invariant(self);
        }
        &self.source
    }

    /// Whether page filters are configured for this file.
    pub fn has_filter(&self) -> (r: bool)
        ensures
            r == (self.file().filter is Some),
    {
        self.filter.is_some()
    }

    /// Reserves `bytes`, reclaiming from the cache and the page directory if it has to.
    ///
    /// Anything a query holds for a while goes through here, not only page buffers: a
    /// reservation that refuses to reclaim would make a query fail or succeed depending
    /// on what the cache happened to be holding.
    pub fn reserve(&self, bytes: u64) -> (r: Result<Charge, Error>)
        ensures
            match r {
                Ok(c) => c.spec_bytes() == bytes && c.owner() == self.spec_budget(),
                Err(e) => e.is_refusal(),
            },
            self.reserved(bytes, r),
    {
        let mut last = match self.budget.try_reserve(bytes) {
            Ok(charge) => return Ok(charge),
            Err(e) => e,
        };
        if !last.is_retryable() {
            return Err(last);
        }
        // Pages and page directory chunks share one budget, so reclaim from both: a
        // page that does not fit because the directory is holding the memory has to be
        // able to take it back, and the other way round.
        //
        // Keep going while something is still being given back. The directory releases
        // one chunk at a time, so a fixed number of rounds gives up with memory still
        // reclaimable and hands the caller a failure that a retry would have fixed. The
        // bound is what there is to reclaim, so a budget that cannot be satisfied still
        // ends rather than spins.

        let pages = self.cache.len();
        let chunks = self.directory.chunks_held();
        let most = pages.saturating_add(chunks).saturating_add(EVICT_ROUNDS);
        let mut rounds: usize = most;
        let ghost mut gone: Seq<ReclaimRound> = Seq::empty();
        while rounds > 0
            invariant
                last.is_refusal(),
                self.spec_budget().asked(bytes, Err::<(), Error>(last)),
                self.reclaim_rounds(bytes, gone),
                gone.len() + rounds == most,
            decreases rounds,
        {
            rounds -= 1;
            let freed = self.cache.evict_bytes(bytes);
            let dropped_chunk = freed == 0 && self.directory.evict_one();
            // Roots last: they are the pages every search starts from, so they are worth
            // keeping until there is nothing else to give.
            let released = if freed == 0 && !dropped_chunk {
                self.release_roots()
            } else {
                0
            };
            match self.budget.try_reserve(bytes) {
                Ok(charge) => return Ok(charge),
                Err(e) => {
                    last = e;
                    proof {
                        let round = ReclaimRound { freed, dropped: dropped_chunk, released };
                        assert(self.spec_budget().refused(bytes));
                        assert(self.reclaim_round(bytes, round));
                        gone = gone.push(round);
                    }
                    if freed == 0 && !dropped_chunk && released == 0 {
                        return Err(last);
                    }
                },
            }
        }
        proof {
            assert(self.spec_cache().counted(pages));
            assert(self.spec_directory().counted(chunks));
            assert(self.reclaim_rounds(bytes, gone));
        }
        Err(last)
    }

    /// File offset of a page, for streaming readers.
    pub fn offset_of(&self, ordinal: PageOrdinal) -> (r: Result<FileOffset, Error>)
        ensures
            match r {
                Ok(offset) => self.file().section.offset(ordinal) == Some(offset),
                Err(e) => self.unlisted(ordinal, e, self.file().section.offset(ordinal) is Some),
            },
    {
        proof {
            use_type_invariant(self);
        }
        let reclaim = |bytes: u64| -> (r: u64)
            ensures
                self.reclaimed(bytes, r),
            { self.reclaim_pages(bytes) };
        self.directory.offset_of(ordinal, &reclaim)
    }

    /// Where a page has to end: at the page after it, or at the page directory.
    ///
    /// Checking only the directory lets a page's declared length run into the page that
    /// follows it, and the bytes of that page come back as part of this one's. Pages are
    /// written in ordinal order, so the next ordinal's offset is the boundary; a file
    /// that does not order them that way falls back to the directory, which is still an
    /// upper bound.
    pub fn page_limit(&self, ordinal: PageOrdinal, offset: u64) -> (r: Result<u64, Error>)
        ensures
            match r {
                Ok(end) => self.file().end_limit(ordinal, offset as int) == Some(end as int),
                Err(e) => self.failure(
                    ordinal,
                    e,
                    self.file().end_limit(ordinal, offset as int) is Some,
                ),
            },
    {
        proof {
            use_type_invariant(self);
        }
        let at = ordinal.get();
        if at == u64::MAX || at + 1 >= self.page_count() {
            return Ok(self.directory_base);
        }
        let next = match self.offset_of(PageOrdinal::new(at + 1)) {
            Ok(next) => next.get(),
            Err(e) => {
                proof {
                    let after = PageOrdinal::spec_new((at + 1) as u64);
                    if self.spec_directory().denied(after, e) {
                        assert(self.page_wants(ordinal, self.spec_directory().chunk_cost(after)));
                    }
                }
                return Err(e);
            },
        };
        if next > offset {
            Ok(next)
        } else {
            Ok(self.directory_base)
        }
    }
}

impl PageStore {
    /// How many bytes a page takes in the file.
    fn stored_length(&self, ordinal: PageOrdinal, offset: u64) -> (r: Result<usize, Error>)
        requires
            self.file().section.offset(ordinal) == Some(FileOffset::spec_new(offset)),
        ensures
            match r {
                Ok(len) => {
                    let at = offset as int;
                    &&& len == bytes::i32_at(self.image(), at)
                    &&& at + PAGE_LENGTH_LEN <= self.image().len()
                    &&& PAGE_PREFIX_LEN <= len <= self.file().max_stored
                    &&& self.file().end_limit(ordinal, at) matches Some(end) && at + len <= end
                    &&& self.spec_metrics().noted_probe(PAGE_LENGTH_LEN as u64)
                },
                Err(e) => self.failure(ordinal, e, self.file().stored_len(ordinal) is Some),
            },
    {
        proof {
            use_type_invariant(self);
        }
        let mut length: Vec<u8> = zeroed(PAGE_LENGTH_LEN);
        read_exact_at(&**self.source.inner, length.as_mut_slice(), offset)?;
        self.metrics.note_probe(PAGE_LENGTH_LEN as u64);
        proof {
            let at = offset as int;
            assert(length@.subrange(0, 4) =~= self.image().subrange(at, at + 4));
            bytes::lemma_u32_moved(length@, 0, self.image(), at);
        }
        let declared = read_i32(length.as_slice(), 0)?;
        if declared < PAGE_PREFIX_LEN as i32 {
            return Err(
                Error::corrupt_words(
                    Words::new("page length ")
                        .signed(declared as i64)
                        .say(" is smaller than the 28 byte prefix"),
                ),
            );
        }
        let len = declared as usize;
        if len > self.limits.max_stored_page_bytes {
            return Err(
                Error::corrupt_words(
                    Words::new("page length ")
                        .number(len as u64)
                        .say(" exceeds the ")
                        .number(self.limits.max_stored_page_bytes as u64)
                        .say(" byte limit"),
                ),
            );
        }
        let end = match offset.checked_add(len as u64) {
            Some(end) => end,
            None => return Err(Error::corrupt("page end offset overflows")),
        };
        if end > self.page_limit(ordinal, offset)? {
            return Err(
                Error::corrupt_words(
                    Words::new("page spans ")
                        .number(offset)
                        .say("..")
                        .number(end)
                        .say(", into what follows it"),
                ),
            );
        }
        Ok(len)
    }

    /// How much room decoding a payload takes: what the encoded form says it needs, and
    /// only the whole limit when it does not say.
    fn payload_room(&self, filter: &SharedFilter, encoded: &[u8]) -> (r: Result<usize, Error>)
        requires
            self.file().filter == Some(*filter),
        ensures
            match r {
                Ok(room) => room == self.file().payload_limit(*filter, encoded@) && room
                    <= self.file().max_decoded,
                Err(e) => e.is_corrupt() && self.file().payload_limit(*filter, encoded@)
                    > self.file().max_decoded,
            },
    {
        let limit = self.limits.max_decoded_page_bytes;
        match filter.inner.decoded_size_hint(encoded) {
            Some(size) => if size <= limit {
                Ok(size)
            } else {
                Err(
                    Error::corrupt_words(
                        Words::new("page filter `")
                            .say(filter.inner.id())
                            .say("` reports a decoded size of ")
                            .number(size as u64)
                            .say(" bytes, above the ")
                            .number(limit as u64)
                            .say(" byte limit"),
                    ),
                )
            },
            None => Ok(limit),
        }
    }

    /// Decodes a page that went through a filter. Returns the page with the charge that
    /// covers it.
    fn unfilter(&self, filter: &SharedFilter, stored: &Vec<u8>) -> (r: Result<
        (Charge, Vec<u8>),
        Error,
    >)
        requires
            self.file().filter == Some(*filter),
            stored@.len() >= PAGE_PREFIX_LEN,
        ensures
            match r {
                Ok((charge, page)) => {
                    &&& self.file().decoded(stored@) == Some(page@)
                    &&& charge.owner() == self.spec_budget()
                    &&& charge.spec_bytes() == crate::budget::capped(page@.len() + BUFFER_OVERHEAD)
                    &&& self.spec_metrics().noted_decoded((page@.len() - PAGE_PREFIX_LEN) as u64)
                    &&& self.decoding_paid(stored@)
                },
                Err(e) => {
                    ||| self.fits_nowhere(e)
                    ||| exists|n: u64|
                        #[trigger] self.spec_budget().asked(n, Err::<(), Error>(e))
                            && self.file().decoding_wants(stored@, n)
                    ||| e.is_corrupt() && self.file().decoded(stored@) is None
                    ||| e.is_corrupt() && !filter.inner.dependable() && exists|room: usize|
                        #[trigger] filter.inner.gave_up(payload_of(stored@), room)
                },
            },
    {
        let encoded = slice_subrange(stored.as_slice(), PAGE_PREFIX_LEN, stored.len());
        let room = self.payload_room(filter, encoded)?;
        let scratch_charge = self.reserve((room as u64).saturating_add(BUFFER_OVERHEAD))?;
        let mut payload: Vec<u8> = Vec::new();
        // What the filter needs for itself, held only while it decodes. zstd allocates its
        // context through C's allocator, where nothing on the Rust side can see it, so the
        // filter is asked instead. Asking can allocate in its own right, so the question is
        // reserved for as long as it takes to answer, the same way the open path reserves
        // it.
        let asking = filter.inner.probe_bytes();
        let probe = self.reserve(asking)?;
        let working = filter.inner.working_set_bytes();
        let_go(probe);
        let working_charge = self.reserve(working)?;
        let decoded = filter.inner.decode(encoded, room, &mut payload);
        let_go(working_charge);
        decoded?;
        self.metrics.note_decoded(payload.len() as u64);
        let total = match PAGE_PREFIX_LEN.checked_add(payload.len()) {
            Some(total) => total,
            None => return Err(self.too_large()),
        };
        let charge = self.reserve((total as u64).saturating_add(BUFFER_OVERHEAD))?;
        let mut page: Vec<u8> = Vec::new();
        // The stored length field describes the compressed page; rewrite it to the decoded
        // length.
        put_le4(&mut page, total as u64);
        put_slice(&mut page, slice_subrange(stored.as_slice(), 4, PAGE_PREFIX_LEN));
        put_slice(&mut page, payload.as_slice());
        proof {
            assert(page@ =~= bytes::le4(PAGE_PREFIX_LEN + payload@.len()) + stored@.subrange(
                4,
                PAGE_PREFIX_LEN as int,
            ) + payload@);
        }
        proof {
            let budget = self.spec_budget();
            assert(budget.asked(working, Ok::<(), Error>(())));
            assert(budget.asked(asking, Ok::<(), Error>(())));
        }
        // Each buffer goes before the reservation that stood for it, not after: between the
        // two, the budget would say the memory is free while it is still held, and another
        // thread reserving in that window would take it and put the two of them together
        // over the limit.
        let_go(payload);
        let_go(scratch_charge);
        Ok((charge, page))
    }

    /// The error of a page that no buffer can hold.
    fn too_large(&self) -> (r: Error)
        requires
            self.file().filter is Some,
            self.limits.max_decoded_page_bytes > usize::MAX - PAGE_PREFIX_LEN,
        ensures
            self.fits_nowhere(r),
    {
        Error::budget(
            BudgetInfo {
                requested: u64::MAX,
                in_use: self.budget.in_use(),
                limit: self.budget.limit(),
                retryable: false,
            },
        )
    }

    /// Whether what decoding the stored bytes of a page takes was reserved: the most its content
    /// may come to, what asking the filter costs, and what the filter said that it needs.
    pub open spec fn decoding_paid(&self, stored: Seq<u8>) -> bool {
        let budget = self.spec_budget();
        self.file().filter matches Some(f) && {
            &&& budget.asked(
                crate::budget::capped(
                    self.file().payload_limit(f, payload_of(stored)) + BUFFER_OVERHEAD,
                ),
                Ok::<(), Error>(()),
            )
            &&& exists|n: u64| #[trigger]
                budget.asked(n, Ok::<(), Error>(())) && (n == 0 || f.inner.probes(n))
            &&& exists|n: u64| #[trigger]
                budget.asked(n, Ok::<(), Error>(())) && (n == 0 || f.inner.needs(n))
        }
    }

    /// Whether reading a page in was paid for and counted: its length, its bytes as they are
    /// stored, and what decoding them took and gave.
    pub open spec fn read_in(&self, ordinal: PageOrdinal, pin: PagePin) -> bool {
        &&& self.file().stored_len(ordinal) matches Some(len)
            && self.spec_metrics().noted_read(len as u64) && self.spec_budget().asked(
            crate::budget::capped(len + BUFFER_OVERHEAD),
            Ok::<(), Error>(()),
        )
        &&& self.file().filter is Some ==> self.decoding_paid(self.file().stored_bytes(ordinal))
        &&& self.spec_metrics().noted_probe(PAGE_LENGTH_LEN as u64)
        &&& self.file().filter is Some ==> self.spec_metrics().noted_decoded(
            (pin@.len() - PAGE_PREFIX_LEN) as u64,
        )
    }

    /// Reads, decodes and checks a page. Returns it with what it is charged.
    fn load(&self, ordinal: PageOrdinal) -> (r: Result<(PagePin, u64), Error>)
        ensures
            match r {
                Ok((pin, bytes)) => {
                    &&& pin.spec_ordinal() == ordinal
                    &&& pin_good(self.file(), self.spec_budget(), pin)
                    &&& pin.spec_charged() == bytes
                    &&& self.read_in(ordinal, pin)
                },
                Err(e) => self.failure(ordinal, e, self.file().page(ordinal) is Some),
            },
    {
        proof {
            use_type_invariant(self);
        }
        let offset = self.offset_of(ordinal)?.get();
        let len = self.stored_length(ordinal, offset)?;
        let stored_charge = self.reserve((len as u64).saturating_add(BUFFER_OVERHEAD))?;
        let mut stored: Vec<u8> = zeroed(len);
        read_exact_at(&**self.source.inner, stored.as_mut_slice(), offset)?;
        self.metrics.note_read(len as u64);
        proof {
            let at = offset as int;
            assert(stored@ =~= self.image().subrange(at, at + len));
            assert(self.file().stored_len(ordinal) == Some(len as int));
        }
        let (charge, data) = match &self.filter {
            None => (stored_charge, stored),
            Some(filter) => {
                let page = match self.unfilter(filter, &stored) {
                    Ok(page) => page,
                    Err(e) => {
                        proof {
                            assert(stored@ == self.file().stored_bytes(ordinal));
                            assert forall|n: u64| self.file().decoding_wants(stored@, n) implies
                                #[trigger] self.page_wants(ordinal, n) by {}
                        }
                        return Err(e);
                    },
                };
                let_go(stored);
                let_go(stored_charge);
                page
            },
        };
        let bytes = charge.bytes();
        match PageView::parse(data.as_slice()) {
            Ok(view) => match view.validate() {
                Ok(_) => {},
                Err(e) => return Err(e.at_page(ordinal.get())),
            },
            Err(e) => return Err(e.at_page(ordinal.get())),
        }
        Ok((PagePin::new(Arc::new(PageBuffer::new(ordinal, data, charge))), bytes))
    }

    /// Returns the page, loading it if the cache does not have it.
    pub fn page(&self, ordinal: PageOrdinal) -> (r: Result<PagePin, Error>)
        ensures
            match r {
                Ok(pin) => pin.spec_ordinal() == ordinal && self.pages().contains_key(ordinal)
                    && pin@ == self.pages()[ordinal] && pin.paid(self.spec_budget()) && self.had(
                    ordinal,
                    pin,
                ),
                Err(e) => self.failure(ordinal, e, self.pages().contains_key(ordinal)),
            },
    {
        proof {
            use_type_invariant(self);
        }
        // Reclaims from the page directory too, which the cache cannot reach.
        let reserve = |bytes: u64| -> (r: Result<Charge, Error>)
            ensures
                self.reserved(bytes, r),
            { self.reserve(bytes) };
        let load = || -> (r: Result<(PagePin, u64), Error>)
            ensures
                match r {
                    Ok((pin, bytes)) => pin.spec_ordinal() == ordinal && pin_good(
                        self.file(),
                        self.spec_budget(),
                        pin,
                    ) && self.read_in(ordinal, pin),
                    Err(e) => self.failure(ordinal, e, self.file().page(ordinal) is Some),
                },
            { self.load(ordinal) };
        match self.cache.get_or_load(ordinal.get(), reserve, load) {
            Ok(pin) => Ok(pin),
            Err(e) => {
                let ghost first = e;
                let about = annotate(e, ordinal);
                proof {
                    if first.is_refusal() {
                        let cache = self.spec_cache();
                        let o = ordinal.get();
                        if load.ensures((), Err::<(PagePin, u64), Error>(first)) {
                            assert(self.failure(ordinal, first, self.file().page(ordinal) is Some));
                        } else if exists|growth: u64|
                            #[trigger] cache.missed(o, growth, false) && reserve.ensures(
                                (PageCache::marker_cost(growth),),
                                Err::<Charge, Error>(first),
                            ) {
                            let growth = choose|growth: u64|
                                #[trigger] cache.missed(o, growth, false) && reserve.ensures(
                                    (PageCache::marker_cost(growth),),
                                    Err::<Charge, Error>(first),
                                );
                            let want = PageCache::marker_cost(growth);
                            assert(self.reserved(want, Err::<Charge, Error>(first)));
                            assert(self.page_wants(ordinal, want));
                        } else {
                            assert(cache.crowded_out(o, first.budget_info()->Some_0.requested));
                        }
                        assert(self.denied_at(ordinal, first));
                        self.lemma_denied(ordinal, first, about);
                    }
                }
                Err(about)
            },
        }
    }

    /// Returns the page only if it is already cached. Never performs I/O.
    pub fn page_cached(&self, ordinal: PageOrdinal) -> (r: Option<PagePin>)
        ensures
            r matches Some(pin) ==> pin.spec_ordinal() == ordinal && self.pages().contains_key(
                ordinal,
            ) && pin@ == self.pages()[ordinal] && pin.paid(self.spec_budget()),
            self.spec_cache().looked_up(ordinal.get(), r),
    {
        proof {
            use_type_invariant(self);
        }
        self.cache.get(ordinal.get())
    }

    /// Whether a page of the file is one that only holds a value.
    pub open spec fn is_blob(&self, ordinal: PageOrdinal) -> bool {
        &&& self.pages().contains_key(ordinal)
        &&& node::page_kind(self.pages()[ordinal]) == NodeKind::Leaf
        &&& node::page_count(self.pages()[ordinal]) == 0
    }

    /// Resolves a blob page into the pin plus the byte range holding the value.
    pub fn blob(&self, ordinal: PageOrdinal) -> (r: Result<(PagePin, Range<usize>), Error>)
        ensures
            match r {
                Ok((pin, range)) => {
                    &&& self.is_blob(ordinal)
                    &&& pin@ == self.pages()[ordinal]
                    &&& pin.paid(self.spec_budget())
                    &&& pin.spec_ordinal() == ordinal
                    &&& range.start == PAGE_PREFIX_LEN
                    &&& range.end == pin@.len()
                },
                Err(e) => {
                    ||| self.failure(ordinal, e, self.pages().contains_key(ordinal))
                    ||| e.is_corrupt() && !self.is_blob(ordinal)
                },
            },
    {
        let pin = self.page(ordinal)?;
        self.blob_from_pin(pin)
    }

    /// The same, for a page the caller already holds.
    ///
    /// Callers that found the page in the cache use this rather than asking for it
    /// again: between the two calls the page can be evicted, and asking again would turn
    /// a lookup that promised not to perform I/O into one that does.
    pub fn blob_from_pin(&self, pin: PagePin) -> (r: Result<(PagePin, Range<usize>), Error>)
        requires
            self.pages().contains_key(pin.spec_ordinal()),
            pin@ == self.pages()[pin.spec_ordinal()],
        ensures
            match r {
                Ok((p, range)) => {
                    &&& self.is_blob(pin.spec_ordinal())
                    &&& p == pin
                    &&& range.start == PAGE_PREFIX_LEN
                    &&& range.end == pin@.len()
                },
                Err(e) => e.is_corrupt() && !self.is_blob(pin.spec_ordinal()),
            },
    {
        let ordinal = pin.ordinal();
        let (kind, count) = {
            let view = pin.parsed()?;
            (view.kind(), view.entry_count())
        };
        if kind != NodeKind::Leaf || count != 0 {
            return Err(
                Error::corrupt_words(
                    Words::new("page ")
                        .number(ordinal.get())
                        .say(" is referenced as a blob page but holds ")
                        .number(count as u64)
                        .say(" entries"),
                ).at_page(ordinal.get()),
            );
        }
        let len = pin.len();
        Ok((pin, Range { start: PAGE_PREFIX_LEN, end: len }))
    }
}

/// Says which page an error is about, where it does not say so itself.
fn annotate(e: Error, ordinal: PageOrdinal) -> (r: Error)
    ensures
        r.kind() == e.kind(),
        r.budget_info() == e.budget_info(),
{
    if e.location().page.is_some() {
        e
    } else {
        e.at_page(ordinal.get())
    }
}

/// What is kept for good has to fit eight times over.
pub proof fn lemma_headroom(bytes: u64, used: u64, limit: u64)
    ensures
        RETAIN_HEADROOM_PAGES * bytes + used <= limit ==> bytes + bytes + bytes + bytes + bytes
            + bytes + bytes + bytes <= limit - used,
        RETAIN_HEADROOM_PAGES * bytes + used > limit ==> bytes + bytes + bytes + bytes + bytes
            + bytes + bytes + bytes > limit - used,
{
}

} // verus!

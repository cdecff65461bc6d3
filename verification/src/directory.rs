//! The page directory: page ordinal to file offset.
//!
//! The section is `page_count` little-endian `i64` offsets at the end of the file. A
//! database with a hundred million pages has an 800 MB directory, so this reads it in
//! fixed-size chunks and keeps a bounded number of them; nothing here grows with the
//! page count. The dense-array shortcut is just the degenerate case where the whole
//! directory is one chunk.

use std::sync::Arc;

use vstd::prelude::*;
use vstd::rwlock::{RwLock, RwLockPredicate};

use crate::budget::{self, Budget, Charge, BUFFER_OVERHEAD};
use crate::error::{Error, ErrorKind, Words};
use crate::format::bytes::{self, read_i64};
use crate::format::{FileOffset, PageOrdinal, DIRECTORY_SLOT_LEN, HEADER_LEN};
use crate::io::{read_exact_at, PageSource, SharedSource};
use crate::locked;
use crate::metrics::Metrics;

verus! {

broadcast use crate::format::group_format;

/// What a file's directory section says.
pub struct Section {
    pub image: Seq<u8>,
    pub base: int,
    pub count: int,
}

impl Section {
    /// Whether the section is inside the file.
    pub open spec fn inside(self) -> bool {
        self.base + DIRECTORY_SLOT_LEN * self.count <= self.image.len()
    }

    /// The number in a slot.
    pub open spec fn slot(self, i: int) -> int {
        bytes::i64_at(self.image, self.base + DIRECTORY_SLOT_LEN * i)
    }

    /// Where a page starts, when the directory has a slot for it that points into the page
    /// area.
    pub open spec fn offset(self, ordinal: PageOrdinal) -> Option<FileOffset> {
        let i = ordinal.get() as int;
        if i < self.count && self.base + DIRECTORY_SLOT_LEN * (i + 1) <= self.image.len()
            && HEADER_LEN <= self.slot(i) < self.base {
            Some(FileOffset::spec_new(self.slot(i) as u64))
        } else {
            None
        }
    }
}

/// A part of the directory that is kept in memory.
pub struct CachedChunk {
    index: u64,
    data: Vec<u8>,
    last_used: u64,
    charge: Charge,
}

impl CachedChunk {
    /// Which chunk it is.
    pub closed spec fn spec_index(&self) -> u64 {
        self.index
    }

    /// When it was last used.
    pub closed spec fn spec_last_used(&self) -> u64 {
        self.last_used
    }

    /// Whether its memory has gone back to the budget it was charged on.
    pub closed spec fn released(&self) -> bool {
        self.charge.owner().given_back(self.charge.spec_bytes())
    }

    /// Whether it holds the slots of its part of the directory, and is charged for them on
    /// this budget.
    pub closed spec fn holds(&self, s: Section, per: u64, budget: Arc<Budget>) -> bool {
        let first = self.index * per;
        let n = if s.count - first < per {
            s.count - first
        } else {
            per as int
        };
        &&& first < s.count
        &&& self.data@.len() == DIRECTORY_SLOT_LEN * n
        &&& s.base + DIRECTORY_SLOT_LEN * (first + n) <= s.image.len()
        &&& self.data@ == s.image.subrange(
            s.base + DIRECTORY_SLOT_LEN * first,
            s.base + DIRECTORY_SLOT_LEN * (first + n),
        )
        &&& self.charge.owner() == budget
        &&& self.charge.spec_bytes() == budget::capped(self.data@.len() + BUFFER_OVERHEAD)
    }

    /// Gives the chunk up, and its memory back.
    fn release(self)
        ensures
            self.released(),
    {
        let mut charge = self.charge;
        let bytes = charge.bytes();
        charge.shrink(bytes);
    }
}

/// The chunks that are kept, and the clock their use is told by.
pub struct Chunks {
    list: Vec<CachedChunk>,
    tick: u64,
}

impl View for Chunks {
    type V = Seq<CachedChunk>;

    closed spec fn view(&self) -> Seq<CachedChunk> {
        self.list@
    }
}

/// Whether a chunk is not among those kept.
pub open spec fn absent(list: Seq<CachedChunk>, index: u64) -> bool {
    forall|i: int| 0 <= i < list.len() ==> (#[trigger] list[i]).spec_index() != index
}

/// Whether a chunk is one that was used longest ago.
pub open spec fn oldest(list: Seq<CachedChunk>, pos: int) -> bool {
    &&& 0 <= pos < list.len()
    &&& forall|j: int|
        0 <= j < list.len() ==> list[pos].spec_last_used() <= (#[trigger] list[j]).spec_last_used()
}

/// Whether a list lost one of the chunks used longest ago, whose memory went back, and nothing
/// else. The last one takes its place.
pub open spec fn lost_oldest(a: Seq<CachedChunk>, b: Seq<CachedChunk>) -> bool {
    exists|pos: int| #[trigger]
        oldest(a, pos) && b == a.update(pos, a.last()).drop_last() && a[pos].released()
}

/// Whether a list is another with a chunk kept: added, in place of one used longest ago where
/// there are too many, unless a chunk of its index was there already: then its memory goes back.
pub open spec fn kept(
    a: Seq<CachedChunk>,
    b: Seq<CachedChunk>,
    chunk: CachedChunk,
    max: usize,
) -> bool {
    &&& !absent(a, chunk.spec_index()) ==> b == a && chunk.released()
    &&& absent(a, chunk.spec_index()) ==> if a.len() < max {
        b == a.push(chunk)
    } else {
        b.len() > 0 && b.last() == chunk && lost_oldest(a, b.drop_last())
    }
}

/// Whether every chunk holds its part of the directory and is charged for it, no part is held twice, and no more
/// are held than may be.
pub open spec fn chunks_ok(list: Seq<CachedChunk>, rule: ChunksRule) -> bool {
    &&& list.len() <= rule.max
    &&& forall|i: int|
        0 <= i < list.len() ==> (#[trigger] list[i]).holds(rule.section, rule.per, rule.budget)
    &&& forall|i: int, j: int|
        0 <= i < j < list.len() ==> (#[trigger] list[i]).spec_index() != (
        #[trigger] list[j]).spec_index()
}

proof fn lemma_lost_ok(a: Seq<CachedChunk>, b: Seq<CachedChunk>, rule: ChunksRule)
    requires
        chunks_ok(a, rule),
        lost_oldest(a, b),
    ensures
        chunks_ok(b, rule),
        b.len() == a.len() - 1,
        forall|x: u64| absent(a, x) ==> #[trigger] absent(b, x),
{
    let pos = choose|pos: int|
        #[trigger] oldest(a, pos) && b == a.update(pos, a.last()).drop_last();
    assert forall|i: int| 0 <= i < b.len() implies (#[trigger] b[i]) == (if i == pos {
        a[a.len() - 1]
    } else {
        a[i]
    }) by {}
}

/// What a clock says after it said `now`.
pub open spec fn tick_after(now: u64) -> u64 {
    if now == u64::MAX {
        0
    } else {
        (now + 1) as u64
    }
}

/// Whether a list is another with one chunk, now used at this time.
pub open spec fn touched(a: Seq<CachedChunk>, b: Seq<CachedChunk>, pos: int, tick: u64) -> bool {
    &&& 0 <= pos < a.len()
    &&& b.len() == a.len()
    &&& b[pos].spec_index() == a[pos].spec_index()
    &&& b[pos].spec_last_used() == tick
    &&& forall|j: int| 0 <= j < a.len() && j != pos ==> #[trigger] b[j] == a[j]
}

impl Chunks {
    /// No chunks.
    pub fn new() -> (r: Chunks)
        ensures
            r@ == Seq::<CachedChunk>::empty(),
    {
        Chunks { list: Vec::new(), tick: 0 }
    }

    /// How many chunks are kept.
    pub fn len(&self) -> (r: usize)
        ensures
            r == self@.len(),
    {
        self.list.len()
    }

    /// What the clock says.
    pub closed spec fn spec_tick(&self) -> u64 {
        self.tick
    }

    /// What the clock says. It goes on by one, or comes round.
    pub fn next_tick(&mut self) -> (r: u64)
        ensures
            final(self)@ == old(self)@,
            r == old(self).spec_tick(),
            final(self).spec_tick() == tick_after(old(self).spec_tick()),
    {
        let now = self.tick;
        self.tick = now.wrapping_add(1);
        now
    }

    /// Where a chunk is.
    fn position(&self, index: u64) -> (r: Option<usize>)
        ensures
            match r {
                Some(i) => i < self.list@.len() && self.list@[i as int].index == index,
                None => forall|i: int|
                    0 <= i < self.list@.len() ==> (#[trigger] self.list@[i]).index != index,
            },
    {
        let mut i: usize = 0;
        while i < self.list.len()
            invariant
                i <= self.list@.len(),
                forall|j: int| 0 <= j < i ==> (#[trigger] self.list@[j]).index != index,
            decreases self.list@.len() - i,
        {
            if self.list[i].index == index {
                return Some(i);
            }
            i += 1;
        }
        None
    }

    /// Notes that a chunk was used.
    fn touch(&mut self, i: usize, tick: u64, Ghost(rule): Ghost<ChunksRule>)
        requires
            i < old(self).list@.len(),
            rule.inv(*old(self)),
        ensures
            rule.inv(*final(self)),
            touched(old(self)@, final(self)@, i as int, tick),
            final(self).tick == old(self).tick,
    {
        self.list[i].last_used = tick;
        proof {
            assert forall|j: int| 0 <= j < self.list@.len() implies (#[trigger] self.list@[j]).holds(
                rule.section,
                rule.per,
                rule.budget,
            ) && self.list@[j].index == old(self).list@[j].index by {
                assert(old(self)@[j].holds(rule.section, rule.per, rule.budget));
            }
            assert forall|a: int, b: int| 0 <= a < b < self.list@.len() implies (
            #[trigger] self.list@[a]).spec_index() != (#[trigger] self.list@[b]).spec_index() by {
                assert(old(self)@[a].spec_index() != old(self)@[b].spec_index());
            }
        }
    }

    /// Drops a chunk used longest ago. Returns whether there was one.
    pub fn evict_oldest(&mut self) -> (r: bool)
        ensures
            r == (old(self)@.len() > 0),
            r ==> lost_oldest(old(self)@, final(self)@),
            !r ==> final(self)@ == old(self)@,
    {
        if self.list.len() == 0 {
            return false;
        }
        let mut pos: usize = 0;
        let mut i: usize = 1;
        while i < self.list.len()
            invariant
                1 <= i <= self.list@.len(),
                pos < i,
                forall|j: int|
                    0 <= j < i ==> self.list@[pos as int].last_used <= (
                    #[trigger] self.list@[j]).last_used,
                self.list@ == old(self).list@,
            decreases self.list@.len() - i,
        {
            if self.list[i].last_used < self.list[pos].last_used {
                pos = i;
            }
            i += 1;
        }
        self.list.swap_remove(pos).release();
        proof {
            assert(oldest(old(self)@, pos as int));
        }
        true
    }

    /// Keeps a chunk, dropping one used longest ago when there are too many. A chunk that
    /// is there already stays, and the new one goes.
    pub fn keep(&mut self, chunk: CachedChunk, max: usize)
        requires
            max >= 1,
        ensures
            kept(old(self)@, final(self)@, chunk, max),
    {
        if self.position(chunk.index).is_some() {
            // Another thread read the same chunk first; keep theirs.
            chunk.release();
            return;
        }
        if self.list.len() >= max {
            let dropped = self.evict_oldest();
        }
        let ghost mid = self@;
        self.list.push(chunk);
        proof {
            assert(self@.drop_last() =~= mid);
        }
    }
}

/// What is always true of the chunks a directory keeps.
pub struct ChunksRule {
    pub section: Section,
    pub per: u64,
    pub max: usize,
    pub budget: Arc<Budget>,
}

impl RwLockPredicate<Chunks> for ChunksRule {
    open spec fn inv(self, v: Chunks) -> bool {
        chunks_ok(v@, self)
    }
}

/// Bounded reader over the page directory section.
pub struct PageDirectory {
    source: SharedSource,
    base: u64,
    count: u64,
    entries_per_chunk: u64,
    max_chunks: usize,
    budget: Arc<Budget>,
    metrics: Arc<Metrics>,
    chunks: RwLock<Chunks, ChunksRule>,
}

impl PageDirectory {
    /// What the directory section says.
    pub closed spec fn section(&self) -> Section {
        Section {
            image: self.source.inner.image(),
            base: self.base as int,
            count: self.count as int,
        }
    }

    /// The source the directory is read from.
    pub closed spec fn spec_source(&self) -> SharedSource {
        self.source
    }

    /// The budget the chunks are charged on.
    pub closed spec fn spec_budget(&self) -> Arc<Budget> {
        self.budget
    }

    /// The counters.
    pub closed spec fn spec_metrics(&self) -> Arc<Metrics> {
        self.metrics
    }

    /// How many slots are read at a time.
    pub closed spec fn per_chunk(&self) -> u64 {
        self.entries_per_chunk
    }

    /// How many chunks are kept at most.
    pub closed spec fn chunk_limit(&self) -> usize {
        self.max_chunks
    }

    /// Whether the directory has a place in memory and in the address space of a file.
    pub open spec fn addressable(&self) -> bool {
        &&& self.section().base + DIRECTORY_SLOT_LEN * self.section().count <= u64::MAX
        &&& DIRECTORY_SLOT_LEN * self.per_chunk() <= usize::MAX
    }

    /// Whether the chunks kept were `a` when they were taken, and were put back as `b`.
    pub closed spec fn passed(&self, a: Chunks, b: Chunks) -> bool {
        locked::passed(&self.chunks, a, b)
    }

    /// Whether a chunk was looked for among those kept: what was found of it, and that it
    /// counts as used now.
    pub open spec fn looked_up(&self, index: u64, found: bool) -> bool {
        exists|a: Chunks, b: Chunks|
            #[trigger] self.passed(a, b) && b.spec_tick() == tick_after(a.spec_tick())
                && if found {
                exists|pos: int|
                    #[trigger] touched(a@, b@, pos, a.spec_tick()) && a@[pos].spec_index() == index
            } else {
                absent(a@, index) && b@ == a@
            }
    }

    /// Whether a chunk was read and put among those kept.
    pub open spec fn took_in(&self, index: u64) -> bool {
        exists|chunk: CachedChunk, a: Chunks, b: Chunks|
            #![trigger self.passed(a, b), chunk.holds(self.section(), self.per_chunk(), self.spec_budget())]
            self.passed(a, b) && chunk.holds(self.section(), self.per_chunk(), self.spec_budget())
                && chunk.spec_index() == index && kept(a@, b@, chunk, self.chunk_limit())
    }

    /// Whether the chunks kept were counted.
    pub open spec fn counted(&self, n: usize) -> bool {
        exists|a: Chunks| #[trigger] self.passed(a, a) && n == a@.len()
    }

    /// Whether the clock was read and put on.
    pub open spec fn ticked(&self, now: u64) -> bool {
        exists|a: Chunks, b: Chunks|
            #[trigger] self.passed(a, b) && b@ == a@ && now == a.spec_tick() && b.spec_tick()
                == tick_after(now)
    }

    /// Whether a chunk used longest ago was dropped, or there was none to drop.
    pub open spec fn gave_up(&self, dropped: bool) -> bool {
        exists|a: Chunks, b: Chunks|
            #[trigger] self.passed(a, b) && dropped == (a@.len() > 0) && if dropped {
                lost_oldest(a@, b@)
            } else {
                b@ == a@
            }
    }

    #[verifier::type_invariant]
    spec fn ruled(&self) -> bool {
        &&& self.chunks.pred() == (ChunksRule {
            section: self.section(),
            per: self.entries_per_chunk,
            max: self.max_chunks,
            budget: self.budget,
        })
        &&& self.entries_per_chunk >= 1
        &&& self.max_chunks >= 1
    }

    /// Creates a directory reader.
    ///
    /// `base` is the directory's file offset and `count` its slot count, both from the
    /// validated header.
    pub fn new(
        source: SharedSource,
        base: FileOffset,
        count: u64,
        entries_per_chunk: u64,
        max_chunks: usize,
        budget: Arc<Budget>,
        metrics: Arc<Metrics>,
    ) -> (r: PageDirectory)
        ensures
            r.section() == (Section {
                image: source.inner.image(),
                base: base.get() as int,
                count: count as int,
            }),
            r.spec_source() == source,
            r.spec_budget() == budget,
            r.spec_metrics() == metrics,
            r.per_chunk() == (if entries_per_chunk == 0 {
                1
            } else {
                entries_per_chunk
            }),
            r.chunk_limit() == (if max_chunks == 0 {
                1
            } else {
                max_chunks
            }),
    {
        let per = if entries_per_chunk == 0 {
            1
        } else {
            entries_per_chunk
        };
        let max = if max_chunks == 0 {
            1
        } else {
            max_chunks
        };
        let base = base.get();
        let chunks = RwLock::new(
            Chunks::new(),
            Ghost(
                ChunksRule {
                    section: Section {
                        image: source.inner.image(),
                        base: base as int,
                        count: count as int,
                    },
                    per,
                    max,
                    budget,
                },
            ),
        );
        PageDirectory {
            source,
            base,
            count,
            entries_per_chunk: per,
            max_chunks: max,
            budget,
            metrics,
            chunks,
        }
    }

    /// Number of pages in the file.
    pub fn page_count(&self) -> (r: u64)
        ensures
            r == self.section().count,
    {
        self.count
    }

    /// How many bytes the slots of a chunk take.
    pub open spec fn bytes_of(&self, chunk: u64) -> int {
        let left = self.section().count - chunk * self.per_chunk();
        DIRECTORY_SLOT_LEN * (if left < self.per_chunk() {
            left
        } else {
            self.per_chunk() as int
        })
    }

    /// What a chunk costs: its slots, and what a buffer costs besides.
    pub open spec fn cost_of(&self, chunk: u64) -> u64 {
        budget::capped(self.bytes_of(chunk) + BUFFER_OVERHEAD)
    }

    /// What the chunk with the slot of a page costs.
    pub open spec fn chunk_cost(&self, ordinal: PageOrdinal) -> u64 {
        self.cost_of(self.chunk_of(ordinal))
    }

    /// Whether an error is that of a chunk for which the budget had no room.
    pub open spec fn denied(&self, ordinal: PageOrdinal, e: Error) -> bool {
        ordinal.get() < self.section().count && self.spec_budget().asked(
            self.chunk_cost(ordinal),
            Err::<(), Error>(e),
        )
    }

    /// Whether an error is one that resolving this ordinal may report.
    pub open spec fn failure(&self, ordinal: PageOrdinal, e: Error) -> bool {
        ||| self.denied(ordinal, e)
        ||| e.kind() == ErrorKind::Io && (!self.spec_source().inner.dependable()
            || !self.section().inside())
        ||| e.is_corrupt() && (self.section().offset(ordinal) is None || !self.addressable())
    }

    /// The chunk that the slot of a page is in.
    pub open spec fn chunk_of(&self, ordinal: PageOrdinal) -> u64 {
        (ordinal.get() / self.per_chunk()) as u64
    }

    /// Whether a chunk was among those kept, or was not, was read, was counted as read and was
    /// put among them.
    pub open spec fn consulted(&self, chunk: u64) -> bool {
        ||| self.looked_up(chunk, true)
        ||| {
            &&& self.looked_up(chunk, false)
            &&& self.spec_metrics().noted_chunk(self.bytes_of(chunk) as u64)
            &&& self.took_in(chunk)
        }
    }

    /// Whether an error is that of a chunk for which there was no room after everything that
    /// could be given up for it was.
    pub open spec fn starved<R: Fn(u64) -> u64>(&self, reclaim: &R, wanted: u64, e: Error) -> bool {
        &&& self.spec_budget().asked(wanted, Err::<(), Error>(e))
        &&& self.gave_up(false) && reclaim.ensures((wanted,), 0) || self.kept_on(
            wanted,
            reclaim,
            u64::MAX,
        )
    }

    /// Resolves an ordinal to its file offset.
    ///
    /// `reclaim` releases memory held elsewhere on the same budget, and returns how many
    /// bytes it freed. Directory chunks and page buffers draw on one budget, so a chunk
    /// that does not fit has to be able to take memory back from the pages, exactly as a
    /// page can take it from the chunks.
    pub fn offset_of<R: Fn(u64) -> u64>(&self, ordinal: PageOrdinal, reclaim: &R) -> (r: Result<
        FileOffset,
        Error,
    >)
        requires
            forall|bytes: u64| #[trigger] reclaim.requires((bytes,)),
        ensures
            match r {
                Ok(offset) => self.section().offset(ordinal) == Some(offset) && self.consulted(
                    self.chunk_of(ordinal),
                ),
                Err(e) => self.failure(ordinal, e) && (e.is_refusal() ==> self.looked_up(
                    self.chunk_of(ordinal),
                    false,
                ) && self.starved(reclaim, self.chunk_cost(ordinal), e)),
            },
    {
        proof {
            use_type_invariant(self);
        }
        let index = ordinal.get();
        if index >= self.count {
            return Err(
                Error::corrupt_words(
                    Words::new("page ordinal ")
                        .number(index)
                        .say(" is past the ")
                        .number(self.count)
                        .say(" pages in this file"),
                ),
            );
        }
        let per = self.entries_per_chunk;
        let chunk_index = index / per;
        let within = index % per;
        proof {
            vstd::arithmetic::div_mod::lemma_fundamental_div_mod(index as int, per as int);
            assert(chunk_index * per == per * chunk_index) by (nonlinear_arith);
            assert(chunk_index * per + within == index);
        }
        match self.lookup(chunk_index, within) {
            Some(raw) => return self.validate_offset(raw, ordinal),
            None => {},
        }
        let chunk = self.read_chunk(chunk_index, reclaim)?;
        let raw = self.slot_of(&chunk, within);
        self.insert(chunk);
        self.validate_offset(raw, ordinal)
    }

    /// The number in a slot of a chunk.
    fn slot_of(&self, chunk: &CachedChunk, within: u64) -> (r: i64)
        requires
            chunk.holds(self.section(), self.entries_per_chunk, self.budget),
            within < self.entries_per_chunk,
            chunk.index * self.entries_per_chunk + within < self.count,
        ensures
            r == self.section().slot(chunk.index * self.entries_per_chunk + within),
            self.section().base + DIRECTORY_SLOT_LEN * (chunk.index * self.entries_per_chunk + within
                + 1) <= self.section().image.len(),
    {
        let ghost s = self.section();
        let ghost first = chunk.index * self.entries_per_chunk;
        let held = chunk.data.len();
        proof {
            assert(DIRECTORY_SLOT_LEN * (within + 1) <= held);
        }
        let at = DIRECTORY_SLOT_LEN * (within as usize);
        proof {
            let p = s.base + DIRECTORY_SLOT_LEN * (first + within);
            let d = chunk.data@;
            assert(d.subrange(at as int, at + 8) =~= s.image.subrange(p, p + 8));
            bytes::lemma_u64_moved(d, at as int, s.image, p);
        }
        match read_i64(chunk.data.as_slice(), at) {
            Ok(raw) => raw,
            Err(_) => 0,
        }
    }

    /// Returns the raw slot value if its chunk is cached.
    fn lookup(&self, chunk_index: u64, within: u64) -> (r: Option<i64>)
        requires
            within < self.entries_per_chunk,
            chunk_index * self.entries_per_chunk + within < self.count,
        ensures
            r matches Some(raw) ==> raw == self.section().slot(
                chunk_index * self.entries_per_chunk + within,
            ) && self.section().base + DIRECTORY_SLOT_LEN * (chunk_index * self.entries_per_chunk
                + within + 1) <= self.section().image.len(),
            self.looked_up(chunk_index, r is Some),
    {
        proof {
            use_type_invariant(self);
        }
        let (mut chunks, handle) = self.chunks.acquire_write();
        let ghost (before, taken) = (chunks, handle);
        let tick = chunks.next_tick();
        let found = match chunks.position(chunk_index) {
            Some(i) => {
                chunks.touch(i, tick, Ghost(self.chunks.pred()));
                Some(self.slot_of(&chunks.list[i], within))
            },
            None => None,
        };
        let ghost after = chunks;
        handle.release_write(chunks);
        proof {
            assert(locked::traded(&self.chunks, before, after, taken));
            assert(self.passed(before, after));
        }
        found
    }

    fn validate_offset(&self, raw: i64, ordinal: PageOrdinal) -> (r: Result<FileOffset, Error>)
        requires
            ordinal.get() < self.count,
            self.section().base + DIRECTORY_SLOT_LEN * (ordinal.get() + 1)
                <= self.section().image.len(),
            raw == self.section().slot(ordinal.get() as int),
        ensures
            match r {
                Ok(offset) => self.section().offset(ordinal) == Some(offset),
                Err(e) => self.section().offset(ordinal) is None && e.is_corrupt(),
            },
    {
        let offset = match FileOffset::from_i64(raw) {
            Ok(offset) => offset,
            Err(e) => return Err(e.at_page(ordinal.get())),
        };
        if offset.get() < HEADER_LEN as u64 || offset.get() >= self.base {
            return Err(
                Error::corrupt_words(
                    Words::new("page directory entry points at offset ")
                        .number(offset.get())
                        .say(", outside the page area [")
                        .number(HEADER_LEN as u64)
                        .say(", ")
                        .number(self.base)
                        .say(")"),
                ).at_page(ordinal.get()),
            );
        }
        Ok(offset)
    }

    /// Whether something was given up in each of these rounds: a chunk, or what `reclaim` had.
    pub open spec fn relented<R: Fn(u64) -> u64>(
        &self,
        wanted: u64,
        reclaim: &R,
        rounds: Seq<(bool, u64)>,
    ) -> bool {
        forall|k: int|
            0 <= k < rounds.len() ==> self.gave_up((#[trigger] rounds[k]).0) && (rounds[k].0
                || rounds[k].1 > 0 && reclaim.ensures((wanted,), rounds[k].1))
    }

    /// Whether something was given up in each of this many rounds.
    pub open spec fn kept_on<R: Fn(u64) -> u64>(&self, wanted: u64, reclaim: &R, n: u64) -> bool {
        exists|rounds: Seq<(bool, u64)>|
            #[trigger] self.relented(wanted, reclaim, rounds) && rounds.len() == n
    }

    /// Reserves the memory of a chunk, giving up resident chunks until it fits.
    ///
    /// Reserving without evicting first would fail on a tight budget even though the
    /// memory about to be freed is exactly what the new chunk needs, and one eviction is
    /// not always enough: the last chunk of the directory is shorter than the rest.
    fn reserve_chunk<R: Fn(u64) -> u64>(&self, wanted: u64, reclaim: &R) -> (r: Result<
        Charge,
        Error,
    >)
        requires
            forall|bytes: u64| #[trigger] reclaim.requires((bytes,)),
        ensures
            match r {
                Ok(c) => c.spec_bytes() == wanted && c.owner() == self.spec_budget(),
                Err(e) => self.starved(reclaim, wanted, e),
            },
    {
        let mut rounds: u64 = u64::MAX;
        let ghost mut last: Seq<(bool, u64)> = Seq::empty();
        loop
            invariant
                forall|bytes: u64| #[trigger] reclaim.requires((bytes,)),
                last.len() + rounds == u64::MAX,
                self.relented(wanted, reclaim, last),
            decreases rounds,
        {
            match self.budget.try_reserve(wanted) {
                Ok(charge) => return Ok(charge),
                Err(e) => {
                    if rounds == 0 {
                        proof {
                            assert(self.kept_on(wanted, reclaim, u64::MAX));
                        }
                        return Err(e);
                    }
                    let dropped = self.evict_one();
                    let mut freed: u64 = 0;
                    if !dropped {
                        freed = reclaim(wanted);
                        if freed == 0 {
                            return Err(e);
                        }
                    }
                    proof {
                        last = last.push((dropped, freed));
                    }
                },
            }
            rounds -= 1;
        }
    }

    fn read_chunk<R: Fn(u64) -> u64>(&self, chunk_index: u64, reclaim: &R) -> (r: Result<
        CachedChunk,
        Error,
    >)
        requires
            forall|bytes: u64| #[trigger] reclaim.requires((bytes,)),
            chunk_index * self.entries_per_chunk < self.count,
        ensures
            match r {
                Ok(chunk) => chunk.index == chunk_index && chunk.holds(
                    self.section(),
                    self.entries_per_chunk,
                    self.budget,
                ) && self.spec_metrics().noted_chunk(self.bytes_of(chunk_index) as u64),
                Err(e) => {
                    ||| self.starved(reclaim, self.cost_of(chunk_index), e)
                    ||| e.kind() == ErrorKind::Io && (!self.spec_source().inner.dependable()
                        || !self.section().inside())
                    ||| e.is_corrupt() && !self.addressable()
                },
            },
    {
        proof {
            use_type_invariant(self);
        }
        let ghost s = self.section();
        let first = chunk_index * self.entries_per_chunk;
        let remaining = self.count - first;
        let entries = if remaining < self.entries_per_chunk {
            remaining
        } else {
            self.entries_per_chunk
        };
        if entries > (usize::MAX / DIRECTORY_SLOT_LEN) as u64 {
            return Err(Error::corrupt("page directory chunk size overflows"));
        }
        let len = (entries as usize) * DIRECTORY_SLOT_LEN;
        let skipped = match first.checked_mul(DIRECTORY_SLOT_LEN as u64) {
            Some(skipped) => skipped,
            None => return Err(Error::corrupt("page directory offset overflows")),
        };
        let offset = match self.base.checked_add(skipped) {
            Some(offset) => offset,
            None => return Err(Error::corrupt("page directory offset overflows")),
        };
        let charge = self.reserve_chunk((len as u64).saturating_add(BUFFER_OVERHEAD), reclaim)?;
        let mut data: Vec<u8> = crate::format::bytes::zeroed(len);
        read_exact_at(&**self.source.inner, data.as_mut_slice(), offset)?;
        self.metrics.note_chunk(len as u64);
        let chunk = CachedChunk { index: chunk_index, data, last_used: self.tick(), charge };
        proof {
            let at = s.base + DIRECTORY_SLOT_LEN * first;
            assert(chunk.data@ =~= s.image.subrange(at, at + len));
        }
        Ok(chunk)
    }

    /// A time to tell the use of a chunk by.
    fn tick(&self) -> (r: u64)
        ensures
            self.ticked(r),
    {
        proof {
            use_type_invariant(self);
        }
        let (mut chunks, handle) = self.chunks.acquire_write();
        let ghost (before, taken) = (chunks, handle);
        let now = chunks.next_tick();
        let ghost after = chunks;
        handle.release_write(chunks);
        proof {
            assert(locked::traded(&self.chunks, before, after, taken));
            assert(self.passed(before, after));
        }
        now
    }

    /// Drops the least recently used chunk, releasing its charge. Returns whether one
    /// was dropped.
    ///
    /// Called both from here, when a new chunk does not fit, and from the page store,
    /// when a page does not fit: the two caches draw on one budget, so either has to be
    /// able to reclaim from the other. What is kept at that moment is other threads'
    /// doing.
    pub fn evict_one(&self) -> (r: bool)
        ensures
            self.gave_up(r),
    {
        proof {
            use_type_invariant(self);
        }
        let (mut chunks, handle) = self.chunks.acquire_write();
        let ghost (before, taken) = (chunks, handle);
        let dropped = chunks.evict_oldest();
        proof {
            if dropped {
                lemma_lost_ok(before@, chunks@, self.chunks.pred());
            }
        }
        let ghost after = chunks;
        handle.release_write(chunks);
        proof {
            assert(locked::traded(&self.chunks, before, after, taken));
            assert(self.passed(before, after));
        }
        dropped
    }

    /// How many chunks are resident, for a caller deciding how long to keep reclaiming.
    pub fn chunks_held(&self) -> (r: usize)
        ensures
            r <= self.chunk_limit(),
            self.counted(r),
    {
        proof {
            use_type_invariant(self);
        }
        let (chunks, handle) = self.chunks.acquire_write();
        let ghost (seen, taken) = (chunks, handle);
        let n = chunks.len();
        handle.release_write(chunks);
        proof {
            assert(locked::traded(&self.chunks, seen, seen, taken));
            assert(self.passed(seen, seen));
        }
        n
    }

    fn insert(&self, chunk: CachedChunk)
        requires
            chunk.holds(self.section(), self.entries_per_chunk, self.budget),
        ensures
            self.took_in(chunk.spec_index()),
    {
        proof {
            use_type_invariant(self);
        }
        let (mut chunks, handle) = self.chunks.acquire_write();
        let ghost (entry, taken) = (chunks, handle);
        let ghost before = chunks@;
        chunks.keep(chunk, self.max_chunks);
        let ghost after = chunks;
        proof {
            let rule = self.chunks.pred();
            if absent(before, chunk.spec_index()) {
                if before.len() >= rule.max {
                    lemma_lost_ok(before, chunks@.drop_last(), rule);
                    assert(chunks@ =~= chunks@.drop_last().push(chunk));
                }
            }
        }
        handle.release_write(chunks);
        proof {
            assert(locked::traded(&self.chunks, entry, after, taken));
            assert(self.passed(entry, after));
            assert(chunk.holds(self.section(), self.per_chunk(), self.spec_budget()));
        }
    }
}

impl PageDirectory {
    /// A slot is in the part of the directory that covers it, which takes eight bytes for each of
    /// its slots and 192 besides.
    pub proof fn lemma_parts(&self, ordinal: PageOrdinal)
        requires
            self.per_chunk() > 0,
            ordinal.get() < self.section().count,
            self.section().count <= 0x7FFF_FFFF,
            self.per_chunk() <= 0x7FFF_FFFF,
        ensures
            ({
                let chunk = self.chunk_of(ordinal) as int;
                let per = self.per_chunk() as int;
                let left = self.section().count - chunk * per;
                &&& chunk * per <= ordinal.get() < (chunk + 1) * per
                &&& left >= per ==> self.cost_of(chunk as u64) == 8 * per + 192
                &&& left < per ==> self.cost_of(chunk as u64) == 8 * left + 192
                &&& self.chunk_cost(ordinal) == self.cost_of(chunk as u64)
            }),
    {
        let (o, per) = (ordinal.get() as int, self.per_chunk() as int);
        vstd::arithmetic::div_mod::lemma_fundamental_div_mod(o, per);
        vstd::arithmetic::div_mod::lemma_mod_bound(o, per);
        let chunk = o / per;
        assert(chunk * per == per * chunk) by (nonlinear_arith);
        assert((chunk + 1) * per == per * chunk + per) by (nonlinear_arith);
    }
}

/// Losing a part of the directory is losing one that was used longest ago: all the others stay.
pub proof fn lemma_lost(a: Seq<CachedChunk>, b: Seq<CachedChunk>)
    requires
        lost_oldest(a, b),
    ensures
        exists|pos: int|
            #![trigger a[pos]]
            {
                &&& 0 <= pos < a.len()
                &&& forall|j: int|
                    0 <= j < a.len() ==> a[pos].spec_last_used() <= (#[trigger] a[j]).spec_last_used()
                &&& b.len() == a.len() - 1
                &&& forall|j: int| 0 <= j < a.len() && j != pos ==> b.contains(#[trigger] a[j])
                &&& a[pos].released()
            },
{
    let pos = choose|pos: int| #[trigger]
        oldest(a, pos) && b == a.update(pos, a.last()).drop_last() && a[pos].released();
    assert forall|j: int| 0 <= j < a.len() && j != pos implies b.contains(#[trigger] a[j]) by {
        if j < a.len() - 1 {
            assert(b[j] == a[j]);
        } else {
            assert(b[pos] == a[j]);
        }
    }
    assert(a[pos] == a[pos]);
}

/// Keeping a part of the directory puts it in unless it is there, and never keeps more than there
/// may be.
pub proof fn lemma_kept(a: Seq<CachedChunk>, b: Seq<CachedChunk>, chunk: CachedChunk, max: usize)
    requires
        kept(a, b, chunk, max),
        a.len() <= max,
        max >= 1,
    ensures
        b.len() <= max,
        absent(a, chunk.spec_index()) ==> b.len() > 0 && b.last() == chunk,
        !absent(a, chunk.spec_index()) ==> b == a,
        absent(a, chunk.spec_index()) && a.len() < max ==> b == a.push(chunk),
{
    if absent(a, chunk.spec_index()) && a.len() >= max {
        lemma_lost(a, b.drop_last());
    }
}

/// Using a part of the directory makes it the one used last: while the clock goes on, it is not the
/// one to be lost as long as there is another.
pub proof fn lemma_touched(a: Seq<CachedChunk>, b: Seq<CachedChunk>, pos: int, now: u64, other: int)
    requires
        touched(a, b, pos, tick_after(now)),
        now < u64::MAX,
        0 <= other < a.len() && other != pos,
        a[other].spec_last_used() <= now,
    ensures
        !oldest(b, pos),
        b[pos].spec_index() == a[pos].spec_index(),
        b[other] == a[other],
        tick_after(now) == now + 1,
{
    assert(b[other].spec_last_used() < b[pos].spec_last_used());
}

} // verus!

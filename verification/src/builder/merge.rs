//! Merging sorted runs.

use vstd::prelude::*;

use super::heap::{self, heapify, sift_down, Ranked};
use super::run::{self, read_value, Entry, Pending, Record, Run, RunReader};
use super::scratch::Scratch;
use crate::encoding::{self, KeyEncoding, SharedEncoding};
use crate::error::{Error, ErrorKind};
use crate::format::extend;
use crate::model::Row;

verus! {

/// Whether runs are those of consecutive rows, from `lo` to `hi`.
pub open spec fn tiled(runs: Seq<Run>, lo: int, hi: int) -> bool {
    &&& runs.len() > 0
    &&& runs[0].lo@ == lo
    &&& runs.last().hi@ == hi
    &&& forall|i: int| 0 <= i < runs.len() ==> (#[trigger] runs[i]).lo@ <= runs[i].hi@
    &&& forall|i: int| 0 <= i < runs.len() - 1 ==> #[trigger] joined(runs, i)
}

/// Whether one run ends where the next one starts.
pub open spec fn joined(runs: Seq<Run>, i: int) -> bool {
    runs[i].hi@ == runs[i + 1].lo@
}

/// Runs of consecutive rows ascend.
pub proof fn lemma_tiled(runs: Seq<Run>, lo: int, hi: int, a: int, b: int)
    requires
        tiled(runs, lo, hi),
        0 <= a <= b < runs.len(),
    ensures
        a < b ==> runs[a].hi@ <= runs[b].lo@,
        lo <= runs[a].lo@,
        runs[b].hi@ <= hi,
    decreases b - a, runs.len() - b + a,
{
    if a < b {
        assert(joined(runs, b - 1));
        lemma_tiled(runs, lo, hi, a, b - 1);
        assert(runs[b - 1].lo@ <= runs[b - 1].hi@);
    }
    lemma_tiled_ends(runs, lo, hi, a);
    lemma_tiled_ends(runs, lo, hi, b);
}

proof fn lemma_tiled_ends(runs: Seq<Run>, lo: int, hi: int, a: int)
    requires
        tiled(runs, lo, hi),
        0 <= a < runs.len(),
    ensures
        lo <= runs[a].lo@,
        runs[a].hi@ <= hi,
{
    lemma_from_first(runs, lo, hi, a);
    lemma_to_last(runs, lo, hi, a);
}

proof fn lemma_from_first(runs: Seq<Run>, lo: int, hi: int, a: int)
    requires
        tiled(runs, lo, hi),
        0 <= a < runs.len(),
    ensures
        lo <= runs[a].lo@,
    decreases a,
{
    if a > 0 {
        lemma_from_first(runs, lo, hi, a - 1);
        assert(joined(runs, a - 1));
        assert(runs[a - 1].lo@ <= runs[a - 1].hi@);
    }
}

proof fn lemma_to_last(runs: Seq<Run>, lo: int, hi: int, a: int)
    requires
        tiled(runs, lo, hi),
        0 <= a < runs.len(),
    ensures
        runs[a].hi@ <= hi,
    decreases runs.len() - a,
{
    if a < runs.len() - 1 {
        lemma_to_last(runs, lo, hi, a + 1);
        assert(joined(runs, a));
        assert(runs[a + 1].lo@ <= runs[a + 1].hi@);
    }
}

/// How many records the first `n` readers have left to read.
pub open spec fn left(readers: Seq<RunReader>, n: nat) -> int
    decreases n,
{
    if n == 0 {
        0
    } else {
        left(readers, (n - 1) as nat) + readers[n - 1].items@.len() - readers[n - 1].at@
    }
}

/// What reading one record does to what is left.
proof fn lemma_left(a: Seq<RunReader>, b: Seq<RunReader>, n: nat, i: int, step: int)
    requires
        n <= a.len(),
        a.len() == b.len(),
        0 <= i < a.len(),
        forall|k: int| 0 <= k < a.len() && k != i ==> #[trigger] b[k] == a[k],
        b[i].items@ == a[i].items@,
        b[i].at@ == a[i].at@ + step,
    ensures
        left(b, n) == left(a, n) - (if i < n {
            step
        } else {
            0
        }),
    decreases n,
{
    if n > 0 {
        lemma_left(a, b, (n - 1) as nat, i, step);
    }
}

/// Readers that have read everything have nothing left.
proof fn lemma_none_left(readers: Seq<RunReader>, n: nat)
    requires
        n <= readers.len(),
        forall|i: int|
            0 <= i < readers.len() ==> (#[trigger] readers[i]).at@ == readers[i].items@.len(),
    ensures
        left(readers, n) == 0,
    decreases n,
{
    if n > 0 {
        lemma_none_left(readers, (n - 1) as nat);
    }
}

/// Merges sorted runs with a binary heap over `(key, sequence)`.
pub struct Merger {
    readers: Vec<RunReader>,
    heap: Vec<Pending>,
    encoding: SharedEncoding,
    runs: Ghost<Seq<Run>>,
    rows: Ghost<Seq<Row>>,
    lo: Ghost<int>,
    hi: Ghost<int>,
    given: Ghost<Seq<Entry>>,
}

/// Whether a reader's next record is in the heap.
pub open spec fn waits(heap: Seq<Pending>, i: int) -> bool {
    exists|k: int| 0 <= k < heap.len() && (#[trigger] heap[k]).source == i
}

/// Whether a heap entry is the last record its reader read.
pub open spec fn read_last(readers: Seq<RunReader>, p: Pending) -> bool {
    &&& p.source < readers.len()
    &&& readers[p.source as int].at@ >= 1
    &&& p.entry@ == readers[p.source as int].items@[readers[p.source as int].at@ - 1]
}

impl Merger {
    /// The records given out so far.
    pub closed spec fn given(&self) -> Seq<Entry> {
        self.given@
    }

    /// Which rows are merged.
    pub closed spec fn lo(&self) -> int {
        self.lo@
    }

    /// Which rows are merged.
    pub closed spec fn hi(&self) -> int {
        self.hi@
    }

    /// The rows.
    pub closed spec fn rows(&self) -> Seq<Row> {
        self.rows@
    }

    /// The encoding.
    pub closed spec fn key_encoding(&self) -> SharedEncoding {
        self.encoding
    }

    spec fn readers_ok(&self, file: Seq<u8>) -> bool {
        &&& self.readers@.len() == self.runs@.len()
        &&& tiled(self.runs@, self.lo@, self.hi@)
        &&& forall|i: int|
            0 <= i < self.readers@.len() ==> self.reader_ok(file, #[trigger] self.readers@[i], i)
    }

    spec fn reader_ok(&self, file: Seq<u8>, r: RunReader, i: int) -> bool {
        &&& r.ok(file)
        &&& r.items@ == self.runs@[i].items@
        &&& run::sorted_run(
            self.encoding,
            self.rows@,
            self.runs@[i].lo@,
            self.runs@[i].hi@,
            r.items@,
        )
        &&& run::taken(self.encoding, r.items@)
        &&& run::all_storable(r.items@)
    }

    spec fn heap_ok(&self, file: Seq<u8>, heap: Seq<Pending>) -> bool {
        &&& heap::keys_taken(self.encoding, heap)
        &&& heap::apart(heap)
        &&& forall|k: int|
            0 <= k < heap.len() ==> run::pending_ok(file, #[trigger] heap[k]) && read_last(
                self.readers@,
                heap[k],
            )
    }

    /// Whether a record that was given out, where it is of run `a`, was read before the one of
    /// that run that waits, if one does.
    spec fn passed_by(&self, heap: Seq<Pending>, x: Entry, a: int) -> bool {
        let r = self.readers@[a];
        self.runs@[a].lo@ <= x.seq < self.runs@[a].hi@ ==> exists|pos: int|
            0 <= pos < r.at@ && (#[trigger] r.items@[pos]).seq == x.seq && (waits(heap, a) ==> pos
                + 1 < r.at@)
    }

    spec fn given_ok(&self, heap: Seq<Pending>) -> bool {
        &&& run::rows_apart(self.given@)
        &&& forall|i: int, a: int|
            0 <= i < self.given@.len() && 0 <= a < self.readers@.len()
                ==> #[trigger] self.passed_by(heap, self.given@[i], a)
        &&& forall|i: int|
            0 <= i < self.given@.len() ==> run::member(
                self.rows@,
                self.lo@,
                self.hi@,
                #[trigger] self.given@[i],
            ) && run::storable(self.given@[i]) && self.encoding.inner.accepts(self.given@[i].key)
        &&& encoding::lawful(&**self.encoding.inner) ==> {
            &&& run::entries_in_order(self.encoding, self.given@)
            &&& forall|i: int, k: int|
                0 <= i < self.given@.len() && 0 <= k < heap.len() ==> run::entry_before(
                    self.encoding,
                    #[trigger] self.given@[i],
                    (#[trigger] heap[k]).entry@,
                )
        }
    }

    /// Whether the merge is in order.
    pub closed spec fn ok(&self, file: Seq<u8>) -> bool {
        &&& self.readers_ok(file)
        &&& self.heap_ok(file, self.heap@)
        &&& forall|i: int|
            0 <= i < self.readers@.len() && (#[trigger] self.readers@[i]).at@
                < self.readers@[i].items@.len() ==> waits(self.heap@, i)
        &&& self.given@.len() + self.heap@.len() + left(self.readers@, self.readers@.len())
            == self.hi@ - self.lo@
        &&& self.given_ok(self.heap@)
        &&& encoding::lawful(&**self.encoding.inner) ==> heap::heap_from(
            self.encoding,
            false,
            self.heap@,
            0,
            self.heap@.len() as int,
        )
    }

    /// Records from different runs are different rows.
    proof fn lemma_sources_apart(&self, file: Seq<u8>, p: Pending, q: Pending)
        requires
            self.readers_ok(file),
            run::pending_ok(file, p),
            run::pending_ok(file, q),
            read_last(self.readers@, p),
            read_last(self.readers@, q),
            p.source != q.source,
        ensures
            p.seq != q.seq,
    {
        let (a, b) = (p.source as int, q.source as int);
        assert(self.reader_ok(file, self.readers@[a], a));
        assert(self.reader_ok(file, self.readers@[b], b));
        let x = self.readers@[a].items@[self.readers@[a].at@ - 1];
        let y = self.readers@[b].items@[self.readers@[b].at@ - 1];
        assert(run::member(self.rows@, self.runs@[a].lo@, self.runs@[a].hi@, x));
        assert(run::member(self.rows@, self.runs@[b].lo@, self.runs@[b].hi@, y));
        if a < b {
            lemma_tiled(self.runs@, self.lo@, self.hi@, a, b);
        } else {
            lemma_tiled(self.runs@, self.lo@, self.hi@, b, a);
        }
    }

    /// More written to the file does not matter to the merge.
    pub proof fn lemma_extended(&self, a: Seq<u8>, b: Seq<u8>)
        requires
            self.ok(a),
            extend::is_front(a, b),
        ensures
            self.ok(b),
    {
        assert forall|i: int| 0 <= i < self.readers@.len() implies self.reader_ok(
            b,
            #[trigger] self.readers@[i],
            i,
        ) by {
            let r = self.readers@[i];
            assert(self.reader_ok(a, r, i));
            assert(b.subrange(r.pos as int, r.end as int) =~= a.subrange(
                r.pos as int,
                r.end as int,
            ));
        }
        assert forall|k: int| 0 <= k < self.heap@.len() implies run::pending_ok(
            b,
            #[trigger] self.heap@[k],
        ) && read_last(self.readers@, self.heap@[k]) by {
            let p = self.heap@[k];
            assert(run::pending_ok(a, p));
            assert(b.subrange(p.value_pos as int, p.value_pos + p.value_len) =~= a.subrange(
                p.value_pos as int,
                p.value_pos + p.value_len,
            ));
        }
    }

    /// No more records are given out than there are.
    pub proof fn lemma_given_len(&self, file: Seq<u8>)
        requires
            self.ok(file),
        ensures
            self.given().len() <= self.hi() - self.lo(),
    {
        lemma_left_positive(self.readers@, self.readers@.len(), file);
    }

    /// How many runs the merge reads.
    pub closed spec fn spec_runs(&self) -> int {
        self.readers@.len() as int
    }

    /// Number of runs this merge reads.
    pub fn runs(&self) -> (r: usize)
        ensures
            r == self.spec_runs(),
    {
        self.readers.len()
    }

    /// Starts a merge.
    pub(crate) fn new<S: Scratch>(
        file: &S,
        runs: &Vec<Run>,
        from: usize,
        to: usize,
        encoding: SharedEncoding,
        Ghost(rows): Ghost<Seq<Row>>,
        Ghost(lo): Ghost<int>,
        Ghost(hi): Ghost<int>,
    ) -> (r: Result<Merger, Error>)
        requires
            from < to <= runs@.len(),
            tiled(runs@.subrange(from as int, to as int), lo, hi),
            forall|i: int|
                from <= i < to ==> run::run_ok(encoding, rows, file.spilled(), #[trigger] runs@[i]),
        ensures
            match r {
                Ok(m) => {
                    &&& m.ok(file.spilled())
                    &&& m.given() == Seq::<Entry>::empty()
                    &&& m.lo() == lo
                    &&& m.hi() == hi
                    &&& m.rows() == rows
                    &&& m.key_encoding() == encoding
                    &&& m.spec_runs() == to - from
                },
                Err(e) => e.kind() == ErrorKind::Io && !file.dependable(),
            },
    {
        let ghost part = runs@.subrange(from as int, to as int);
        let mut m = Merger {
            readers: Vec::new(),
            heap: Vec::new(),
            encoding,
            runs: Ghost(part),
            rows: Ghost(rows),
            lo: Ghost(lo),
            hi: Ghost(hi),
            given: Ghost(Seq::empty()),
        };
        let ghost bytes = file.spilled();
        let mut i = from;
        while i < to
            invariant
                from <= i <= to <= runs@.len(),
                bytes == file.spilled(),
                m.encoding == encoding,
                m.rows@ == rows,
                m.runs@ == part,
                m.lo@ == lo,
                m.hi@ == hi,
                part == runs@.subrange(from as int, to as int),
                tiled(part, lo, hi),
                m.readers@.len() == i - from,
                m.heap@.len() == 0,
                m.given@ == Seq::<Entry>::empty(),
                forall|j: int|
                    from <= j < to ==> run::run_ok(encoding, rows, bytes, #[trigger] runs@[j]),
                forall|j: int|
                    0 <= j < m.readers@.len() ==> m.reader_ok(bytes, #[trigger] m.readers@[j], j)
                        && m.readers@[j].at@ == 0,
                left(m.readers@, m.readers@.len()) == (if i == from {
                    0
                } else {
                    runs@[i - 1].hi@ - lo
                }),
            decreases to - i,
        {
            let reader = RunReader::new(&runs[i]);
            proof {
                assert(run::run_ok(encoding, rows, bytes, runs@[i as int]));
                let k = i - from;
                assert(part[k] == runs@[i as int]);
                if k > 0 {
                    assert(joined(part, k - 1));
                }
                let grown = m.readers@.push(reader);
                lemma_left_push(m.readers@, reader);
            }
            let ghost held = m.readers@;
            m.readers.push(reader);
            proof {
                assert forall|j: int| 0 <= j < m.readers@.len() implies m.reader_ok(
                    bytes,
                    #[trigger] m.readers@[j],
                    j,
                ) && m.readers@[j].at@ == 0 by {
                    if j < held.len() {
                        assert(m.readers@[j] == held[j]);
                    } else {
                        assert(part[j] == runs@[i as int]);
                    }
                }
            }
            i += 1;
        }
        let n = m.readers.len();
        let mut k: usize = 0;
        while k < n
            invariant
                k <= n,
                n == m.readers@.len(),
                bytes == file.spilled(),
                m.encoding == encoding,
                m.rows@ == rows,
                m.lo@ == lo,
                m.hi@ == hi,
                m.given@ == Seq::<Entry>::empty(),
                m.readers_ok(bytes),
                m.heap_ok(bytes, m.heap@),
                forall|j: int|
                    0 <= j < m.heap@.len() ==> (#[trigger] m.heap@[j]).source < k,
                forall|j: int|
                    k <= j < n ==> (#[trigger] m.readers@[j]).at@ == 0,
                forall|j: int|
                    0 <= j < k && (#[trigger] m.readers@[j]).at@ < m.readers@[j].items@.len()
                        ==> waits(m.heap@, j),
                m.heap@.len() + left(m.readers@, n as nat) == hi - lo,
            decreases n - k,
        {
            let ghost held = m;
            proof {
                assert(m.reader_ok(bytes, m.readers@[k as int], k as int));
            }
            let next = match m.readers[k].read_next(file, k) {
                Ok(next) => next,
                Err(e) => return Err(e),
            };
            proof {
                let step = if next is Some {
                    1int
                } else {
                    0
                };
                lemma_left(held.readers@, m.readers@, n as nat, k as int, step);
                held.lemma_advanced(m, bytes, k as int, step);
            }
            match next {
                Some(p) => {
                    let ghost fore = m.heap@;
                    proof {
                        held.lemma_pushed(m, bytes, p);
                    }
                    m.heap.push(p);
                    proof {
                        assert forall|j: int|
                            0 <= j < k + 1 && (#[trigger] m.readers@[j]).at@
                                < m.readers@[j].items@.len() implies waits(m.heap@, j) by {
                            if j < k {
                                assert(waits(fore, j));
                                let w = choose|w: int|
                                    0 <= w < fore.len() && (#[trigger] fore[w]).source == j;
                                assert(m.heap@[w].source == j);
                            } else {
                                assert(m.heap@[fore.len() as int].source == j);
                            }
                        }
                    }
                },
                None => {},
            }
            k += 1;
        }
        let ghost piled = m.heap@;
        heapify(&m.encoding, false, &mut m.heap);
        proof {
            m.lemma_shuffled_heap(bytes, piled);
        }
        Ok(m)
    }

    /// What reading from one run leaves of the others.
    proof fn lemma_advanced(&self, new: Merger, file: Seq<u8>, i: int, step: int)
        requires
            self.readers_ok(file),
            self.heap_ok(file, self.heap@),
            0 <= i < self.readers@.len(),
            new.readers@ == self.readers@.update(i, new.readers@[i]),
            new.readers@[i].ok(file),
            new.readers@[i].items@ == self.readers@[i].items@,
            new.readers@[i].at@ == self.readers@[i].at@ + step,
            new.runs@ == self.runs@,
            new.rows@ == self.rows@,
            new.lo@ == self.lo@,
            new.hi@ == self.hi@,
            new.encoding == self.encoding,
            step == 0 || forall|k: int|
                0 <= k < self.heap@.len() ==> (#[trigger] self.heap@[k]).source != i,
        ensures
            new.readers_ok(file),
            new.heap_ok(file, self.heap@),
    {
        assert forall|j: int| 0 <= j < new.readers@.len() implies new.reader_ok(
            file,
            #[trigger] new.readers@[j],
            j,
        ) by {
            assert(self.reader_ok(file, self.readers@[j], j));
        }
        assert forall|k: int| 0 <= k < self.heap@.len() implies run::pending_ok(
            file,
            #[trigger] self.heap@[k],
        ) && read_last(new.readers@, self.heap@[k]) by {
            let p = self.heap@[k];
            assert(read_last(self.readers@, p));
            if p.source != i {
                assert(new.readers@[p.source as int] == self.readers@[p.source as int]);
            }
        }
    }

    /// One more record may wait in the heap, from a run that has none there.
    proof fn lemma_pushed(&self, new: Merger, file: Seq<u8>, p: Pending)
        requires
            new.readers_ok(file),
            new.heap_ok(file, self.heap@),
            new.heap@ == self.heap@,
            run::pending_ok(file, p),
            read_last(new.readers@, p),
            forall|k: int|
                0 <= k < self.heap@.len() ==> (#[trigger] self.heap@[k]).source != p.source,
        ensures
            new.heap_ok(file, self.heap@.push(p)),
    {
        let grown = self.heap@.push(p);
        let i = p.source as int;
        assert(new.reader_ok(file, new.readers@[i], i));
        assert(new.encoding.inner.accepts(p.entry@.key));
        assert forall|a: int, b: int| 0 <= a < b < grown.len() implies (
        #[trigger] grown[a]).rank_seq() != (#[trigger] grown[b]).rank_seq() by {
            if b == grown.len() - 1 {
                assert(grown[a] == self.heap@[a]);
                new.lemma_sources_apart(file, grown[a], p);
            } else {
                assert(grown[a] == self.heap@[a] && grown[b] == self.heap@[b]);
            }
        }
    }

    /// Shuffling the heap does not matter.
    proof fn lemma_shuffled_heap(&self, file: Seq<u8>, was: Seq<Pending>)
        requires
            self.heap_ok(file, was),
            heap::shuffled(was, self.heap@, was.len() as int),
            heap::apart(self.heap@),
            heap::keys_taken(self.encoding, self.heap@),
        ensures
            self.heap_ok(file, self.heap@),
            forall|i: int| #[trigger] waits(was, i) ==> waits(self.heap@, i),
            self.given_ok(was) ==> self.given_ok(self.heap@),
    {
        let n = was.len() as int;
        assert forall|k: int| 0 <= k < self.heap@.len() implies run::pending_ok(
            file,
            #[trigger] self.heap@[k],
        ) && read_last(self.readers@, self.heap@[k]) by {
            assert(heap::among(was, n, self.heap@[k]));
        }
        assert forall|i: int| #[trigger] waits(was, i) implies waits(self.heap@, i) by {
            let k = choose|k: int| 0 <= k < was.len() && (#[trigger] was[k]).source == i;
            assert(heap::among(self.heap@, n, was[k]));
            let w = choose|w: int|
                0 <= w < n && w < self.heap@.len() && #[trigger] self.heap@[w] == was[k];
            assert(self.heap@[w].source == i);
        }
        assert forall|i: int| #[trigger] waits(self.heap@, i) implies waits(was, i) by {
            let k = choose|k: int| 0 <= k < self.heap@.len() && (#[trigger] self.heap@[k]).source == i;
            assert(heap::among(was, n, self.heap@[k]));
            let w = choose|w: int| 0 <= w < n && w < was.len() && #[trigger] was[w] == self.heap@[k];
            assert(was[w].source == i);
        }
        if self.given_ok(was) {
            assert forall|i: int, a: int|
                0 <= i < self.given@.len() && 0 <= a
                    < self.readers@.len() implies #[trigger] self.passed_by(
                self.heap@,
                self.given@[i],
                a,
            ) by {
                assert(self.passed_by(was, self.given@[i], a));
            }
        }
        if self.given_ok(was) && encoding::lawful(&**self.encoding.inner) {
            assert forall|i: int, k: int|
                0 <= i < self.given@.len() && 0 <= k < self.heap@.len() implies run::entry_before(
                self.encoding,
                #[trigger] self.given@[i],
                (#[trigger] self.heap@[k]).entry@,
            ) by {
                assert(heap::among(was, n, self.heap@[k]));
                let w = choose|w: int| 0 <= w < n && w < was.len() && #[trigger] was[w] == self.heap@[k];
                assert(was[w].entry@ == self.heap@[k].entry@);
            }
        }
    }
}

/// What is left is not negative.
proof fn lemma_left_positive(readers: Seq<RunReader>, n: nat, file: Seq<u8>)
    requires
        n <= readers.len(),
        forall|i: int| 0 <= i < readers.len() ==> (#[trigger] readers[i]).ok(file),
    ensures
        left(readers, n) >= 0,
    decreases n,
{
    if n > 0 {
        lemma_left_positive(readers, (n - 1) as nat, file);
        assert(readers[n - 1].ok(file));
    }
}

/// One more reader.
proof fn lemma_left_push(readers: Seq<RunReader>, r: RunReader)
    ensures
        left(readers.push(r), readers.len() + 1) == left(readers, readers.len()) + r.items@.len()
            - r.at@,
{
    lemma_left_front(readers, r, readers.len());
}

proof fn lemma_left_front(readers: Seq<RunReader>, r: RunReader, n: nat)
    requires
        n <= readers.len(),
    ensures
        left(readers.push(r), n) == left(readers, n),
    decreases n,
{
    if n > 0 {
        lemma_left_front(readers, r, (n - 1) as nat);
        assert(readers.push(r)[n - 1] == readers[n - 1]);
    }
}

/// The order of records is transitive.
proof fn lemma_entry_before(e: SharedEncoding, a: Entry, b: Entry, c: Entry)
    requires
        encoding::lawful(&**e.inner),
        e.inner.accepts(a.key),
        e.inner.accepts(b.key),
        e.inner.accepts(c.key),
        run::entry_before(e, a, b),
        run::entry_before(e, b, c),
    ensures
        run::entry_before(e, a, c),
{
    assert(e.inner.sign(a.key, b.key) <= 0 && e.inner.sign(b.key, c.key) <= 0);
    assert(e.inner.sign(a.key, c.key) <= 0);
}

impl Merger {
    /// Everything that is left once the heap is empty: nothing.
    proof fn lemma_finished(&self, file: Seq<u8>)
        requires
            self.ok(file),
            self.heap@.len() == 0,
        ensures
            run::sorted_run(self.encoding, self.rows@, self.lo@, self.hi@, self.given@),
            run::all_storable(self.given@),
            run::taken(self.encoding, self.given@),
    {
        assert forall|i: int| 0 <= i < self.readers@.len() implies (
        #[trigger] self.readers@[i]).at@ == self.readers@[i].items@.len() by {
            assert(self.reader_ok(file, self.readers@[i], i));
            if self.readers@[i].at@ < self.readers@[i].items@.len() {
                assert(waits(self.heap@, i));
            }
        }
        lemma_none_left(self.readers@, self.readers@.len());
    }

    /// No other heap entry comes from the run of the root.
    proof fn lemma_root_alone(&self, file: Seq<u8>, k: int)
        requires
            self.ok(file),
            0 < k < self.heap@.len(),
        ensures
            self.heap@[k].source != self.heap@[0].source,
    {
        let (p, q) = (self.heap@[0], self.heap@[k]);
        assert(run::pending_ok(file, p) && read_last(self.readers@, p));
        assert(run::pending_ok(file, q) && read_last(self.readers@, q));
        assert(p.rank_seq() != q.rank_seq());
    }

    /// What taking the root out and putting `next` in its place comes to.
    proof fn lemma_replaced(&self, new: Merger, file: Seq<u8>, next: Option<Pending>, rest: Seq<Pending>)
        requires
            self.ok(file),
            self.heap@.len() > 0,
            new.runs@ == self.runs@,
            new.rows@ == self.rows@,
            new.lo@ == self.lo@,
            new.hi@ == self.hi@,
            new.encoding == self.encoding,
            new.given@ == self.given@.push(self.heap@[0].entry@),
            ({
                let i = self.heap@[0].source as int;
                &&& new.readers@ == self.readers@.update(i, new.readers@[i])
                &&& new.readers@[i].ok(file)
                &&& new.readers@[i].items@ == self.readers@[i].items@
                &&& match next {
                    Some(p) => {
                        &&& new.readers@[i].at@ == self.readers@[i].at@ + 1
                        &&& run::pending_ok(file, p)
                        &&& p.source == i
                        &&& self.readers@[i].at@ < self.readers@[i].items@.len()
                        &&& p.entry@ == self.readers@[i].items@[self.readers@[i].at@]
                        &&& rest == self.heap@.update(0, p)
                    },
                    None => {
                        &&& new.readers@[i].at@ == self.readers@[i].at@
                        &&& self.readers@[i].at@ == self.readers@[i].items@.len()
                        &&& rest == self.heap@.update(0, self.heap@.last()).drop_last()
                    },
                }
            }),
        ensures
            new.readers_ok(file),
            new.heap_ok(file, rest),
            new.given_ok(rest),
            forall|j: int|
                0 <= j < new.readers@.len() && (#[trigger] new.readers@[j]).at@
                    < new.readers@[j].items@.len() ==> waits(rest, j),
            new.given@.len() + rest.len() + left(new.readers@, new.readers@.len()) == self.hi@
                - self.lo@,
            encoding::lawful(&**self.encoding.inner) && rest.len() > 0 ==> heap::heap_but(
                self.encoding,
                false,
                rest,
                0,
                rest.len() as int,
                0,
            ),
    {
        let e = self.encoding;
        let old = self.heap@;
        let root = old[0];
        let s = root.source as int;
        let step = if next is Some {
            1int
        } else {
            0
        };
        assert(run::pending_ok(file, root) && read_last(self.readers@, root));
        assert(self.reader_ok(file, self.readers@[s], s));
        lemma_left(self.readers@, new.readers@, self.readers@.len(), s, step);
        assert forall|j: int| 0 <= j < new.readers@.len() implies new.reader_ok(
            file,
            #[trigger] new.readers@[j],
            j,
        ) by {
            assert(self.reader_ok(file, self.readers@[j], j));
        }
        // Where each entry of the new heap comes from.
        assert forall|k: int| 0 <= k < rest.len() implies (next == Some(#[trigger] rest[k]) || (
        exists|w: int| 0 < w < old.len() && old[w] == rest[k])) by {
            if k == 0 {
                if next is None {
                    assert(old[old.len() - 1] == rest[k]);
                }
            } else {
                assert(old[k] == rest[k]);
            }
        }
        assert forall|k: int| 0 <= k < rest.len() implies run::pending_ok(
            file,
            #[trigger] rest[k],
        ) && read_last(new.readers@, rest[k]) && e.inner.accepts(rest[k].rank_key()) && (
        next != Some(rest[k]) ==> rest[k].source != s) by {
            if next == Some(rest[k]) {
                assert(e.inner.accepts(rest[k].entry@.key));
            } else {
                let w = choose|w: int| 0 < w < old.len() && old[w] == rest[k];
                assert(run::pending_ok(file, old[w]) && read_last(self.readers@, old[w]));
                self.lemma_root_alone(file, w);
                assert(new.readers@[rest[k].source as int] == self.readers@[rest[k].source as int]);
                assert(e.inner.accepts(old[w].rank_key()));
            }
        }
        assert forall|a: int, b: int| 0 <= a < b < rest.len() implies (
        #[trigger] rest[a]).rank_seq() != (#[trigger] rest[b]).rank_seq() by {
            assert(rest[b] == old[b]);
            assert(rest[b].source != s) by {
                self.lemma_root_alone(file, b);
            }
            if a == 0 {
                if next is Some {
                    new.lemma_sources_apart(file, rest[a], rest[b]);
                } else {
                    assert(rest[a] == old[old.len() - 1]);
                    assert(b < old.len() - 1);
                    assert(old[b].rank_seq() != old[old.len() - 1].rank_seq());
                }
            } else {
                assert(rest[a] == old[a]);
            }
        }
        assert forall|j: int|
            0 <= j < new.readers@.len() && (#[trigger] new.readers@[j]).at@
                < new.readers@[j].items@.len() implies waits(rest, j) by {
            if j == s {
                assert(rest[0].source == j);
            } else {
                assert(new.readers@[j] == self.readers@[j]);
                assert(waits(old, j));
                let w = choose|w: int| 0 <= w < old.len() && (#[trigger] old[w]).source == j;
                assert(w > 0);
                if w < rest.len() {
                    assert(rest[w] == old[w]);
                } else {
                    assert(rest[0] == old[w]);
                }
            }
        }
        // The root is a row of its run, and so one of all of them.
        let x = root.entry@;
        assert(run::member(self.rows@, self.runs@[s].lo@, self.runs@[s].hi@, x));
        lemma_tiled(self.runs@, self.lo@, self.hi@, s, s);
        assert(run::storable(x));
        assert forall|i: int| 0 <= i < new.given@.len() implies run::member(
            new.rows@,
            new.lo@,
            new.hi@,
            #[trigger] new.given@[i],
        ) && run::storable(new.given@[i]) && e.inner.accepts(new.given@[i].key) by {
            if i < self.given@.len() {
                assert(new.given@[i] == self.given@[i]);
            }
        }
        // It was not given out before, and is now.
        assert(waits(old, s)) by {
            assert(old[0].source == s);
        }
        assert forall|i: int, j: int| 0 <= i < j < new.given@.len() implies (
        #[trigger] new.given@[i]).seq != (#[trigger] new.given@[j]).seq by {
            assert(new.given@[i] == self.given@[i]);
            if j < self.given@.len() {
                assert(new.given@[j] == self.given@[j]);
            } else if self.given@[i].seq == x.seq {
                assert(self.passed_by(old, self.given@[i], s));
                let r = self.readers@[s];
                let pos = choose|pos: int|
                    0 <= pos < r.at@ && (#[trigger] r.items@[pos]).seq == x.seq && pos + 1 < r.at@;
                assert(r.items@[pos].seq != r.items@[r.at@ - 1].seq);
            }
        }
        assert forall|i: int, a: int|
            0 <= i < new.given@.len() && 0 <= a < new.readers@.len() implies #[trigger] new.passed_by(
            rest,
            new.given@[i],
            a,
        ) by {
            assert(waits(rest, a) && a != s ==> waits(old, a)) by {
                if waits(rest, a) && a != s {
                    let k = choose|k: int| 0 <= k < rest.len() && (#[trigger] rest[k]).source == a;
                    let w = choose|w: int| 0 < w < old.len() && old[w] == rest[k];
                    assert(old[w].source == a);
                }
            }
            let r = self.readers@[a];
            let y = new.given@[i];
            if i < self.given@.len() {
                assert(y == self.given@[i]);
                assert(self.passed_by(old, y, a));
                if self.runs@[a].lo@ <= y.seq < self.runs@[a].hi@ {
                    let pos = choose|pos: int|
                        0 <= pos < r.at@ && (#[trigger] r.items@[pos]).seq == y.seq && (waits(
                            old,
                            a,
                        ) ==> pos + 1 < r.at@);
                    assert(new.readers@[a].items@[pos].seq == y.seq);
                }
            } else if a == s {
                if next is None {
                    assert(!waits(rest, s)) by {
                        if waits(rest, s) {
                            let k = choose|k: int|
                                0 <= k < rest.len() && (#[trigger] rest[k]).source == s;
                            assert(next != Some(rest[k]));
                        }
                    }
                }
                assert(new.readers@[a].items@[r.at@ - 1].seq == y.seq);
            } else if a < s {
                lemma_tiled(self.runs@, self.lo@, self.hi@, a, s);
            } else {
                lemma_tiled(self.runs@, self.lo@, self.hi@, s, a);
            }
        }
        if encoding::lawful(&**e.inner) {
            assert forall|i: int, j: int| 0 <= i < j < new.given@.len() implies run::entry_before(
                e,
                #[trigger] new.given@[i],
                #[trigger] new.given@[j],
            ) by {
                assert(new.given@[i] == self.given@[i]);
                if j == self.given@.len() {
                    assert(run::entry_before(e, self.given@[i], old[0].entry@));
                } else {
                    assert(new.given@[j] == self.given@[j]);
                }
            }
            assert forall|k: int| 0 <= k < rest.len() implies run::entry_before(
                e,
                x,
                (#[trigger] rest[k]).entry@,
            ) by {
                if next == Some(rest[k]) {
                    let items = self.readers@[s].items@;
                    let at = self.readers@[s].at@;
                    assert(run::entry_before(e, items[at - 1], items[at]));
                } else {
                    let w = choose|w: int| 0 < w < old.len() && old[w] == rest[k];
                    heap::lemma_root(e, false, old, old.len() as int, w);
                    assert(run::pending_ok(file, old[w]));
                }
            }
            assert forall|i: int, k: int|
                0 <= i < new.given@.len() && 0 <= k < rest.len() implies run::entry_before(
                e,
                #[trigger] new.given@[i],
                (#[trigger] rest[k]).entry@,
            ) by {
                assert(run::entry_before(e, x, rest[k].entry@));
                if i < self.given@.len() {
                    assert(new.given@[i] == self.given@[i]);
                    assert(run::entry_before(e, self.given@[i], old[0].entry@));
                    assert(run::pending_ok(file, rest[k]));
                    lemma_entry_before(e, self.given@[i], x, rest[k].entry@);
                }
            }
            if rest.len() > 0 {
                assert forall|j: int|
                    0 < j < rest.len() && 0 <= heap::parent(j) && heap::parent(j)
                        != 0 implies #[trigger] heap::settled(e, false, rest, j) by {
                    assert(heap::settled(e, false, old, j));
                    assert(rest[j] == old[j] && rest[heap::parent(j)] == old[heap::parent(j)]);
                }
            }
        }
    }

    /// The next record in order, reading its value from the file as it is given out.
    pub(crate) fn next_record<S: Scratch>(&mut self, file: &S) -> (r: Result<Option<Record>, Error>)
        requires
            old(self).ok(file.spilled()),
        ensures
            final(self).lo() == old(self).lo(),
            final(self).hi() == old(self).hi(),
            final(self).rows() == old(self).rows(),
            final(self).key_encoding() == old(self).key_encoding(),
            match r {
                Ok(Some(record)) => {
                    &&& final(self).ok(file.spilled())
                    &&& final(self).given() == old(self).given().push(record@)
                    &&& run::member(
                        old(self).rows(),
                        old(self).lo(),
                        old(self).hi(),
                        record@,
                    )
                    &&& run::storable(record@)
                    &&& old(self).key_encoding().inner.accepts(record@.key)
                    &&& encoding::lawful(&**old(self).key_encoding().inner)
                        ==> run::entries_in_order(
                        old(self).key_encoding(),
                        final(self).given(),
                    )
                },
                Ok(None) => {
                    &&& final(self).ok(file.spilled())
                    &&& final(self).given() == old(self).given()
                    &&& run::sorted_run(
                        old(self).key_encoding(),
                        old(self).rows(),
                        old(self).lo(),
                        old(self).hi(),
                        old(self).given(),
                    )
                    &&& run::all_storable(old(self).given())
                    &&& run::taken(old(self).key_encoding(), old(self).given())
                },
                Err(e) => e.kind() == ErrorKind::Io && !file.dependable(),
            },
    {
        let ghost bytes = file.spilled();
        let ghost before = *self;
        if self.heap.len() == 0 {
            proof {
                self.lemma_finished(bytes);
            }
            return Ok(None);
        }
        let source = self.heap[0].source;
        proof {
            assert(read_last(self.readers@, self.heap@[0]));
            assert(self.reader_ok(bytes, self.readers@[source as int], source as int));
        }
        let next = match self.readers[source].read_next(file, source) {
            Ok(next) => next,
            Err(e) => return Err(e),
        };
        let ghost came = next;
        if let Some(p) = next {
            self.heap.push(p);
        }
        let root = self.heap.swap_remove(0);
        proof {
            self.given@ = self.given@.push(root.entry@);
            assert(root == before.heap@[0]);
            match came {
                Some(p) => {
                    assert(self.heap@ =~= before.heap@.update(0, p));
                },
                None => {
                    assert(self.heap@ =~= before.heap@.update(
                        0,
                        before.heap@.last(),
                    ).drop_last());
                },
            }
            before.lemma_replaced(*self, bytes, came, self.heap@);
        }
        let ghost held = self.heap@;
        let ghost mid = *self;
        let n = self.heap.len();
        if n > 0 {
            sift_down(&self.encoding, false, &mut self.heap, 0, n, Ghost(0));
            proof {
                assert forall|i: int, a: int|
                    0 <= i < self.given@.len() && 0 <= a
                        < self.readers@.len() implies #[trigger] self.passed_by(
                    held,
                    self.given@[i],
                    a,
                ) by {
                    assert(mid.passed_by(held, mid.given@[i], a));
                }
                self.lemma_shuffled_heap(bytes, held);
            }
        }
        proof {
            assert(self.given@[before.given@.len() as int] == root.entry@);
        }
        match read_value(file, root) {
            Ok(record) => Ok(Some(record)),
            Err(e) => Err(e),
        }
    }
}

} // verus!

//! Bounded sorting of build input.
//!
//! Records are buffered in memory up to a byte budget, sorted, and written out as a run; at
//! the end the runs are merged. A build therefore never needs the whole dataset resident,
//! and the memory it does use is the buffer you configured plus one record per run during
//! the merge.
//!
//! Ordering is `(key, sequence)`: the key order comes from the encoding, and the sequence
//! number keeps records with equal keys in append order. That stability is what makes
//! non-unique secondary index record ids reproducible.

use vstd::prelude::*;

use super::heap::{self, heap_sort, Ranked};
use super::merge::{self, Merger};
use super::pace;
use super::run::{self, put_record, Entry, Record, Run};
use super::scratch::Scratch;
use crate::encoding::{self, KeyEncoding, SharedEncoding};
use crate::error::{Error, ErrorKind};
use crate::format::extend;
use crate::model::Row;
use crate::query::range::copied;

verus! {

/// How many runs one merge pass reads at once.
///
/// The merge holds one pending entry per run, so the fan-in is what bounds that part of the
/// build. More runs than this are reduced by extra passes rather than all opened at once,
/// which is what keeps a build with a small sort buffer and large values from needing memory
/// proportional to the whole input.
pub const MERGE_FAN_IN: usize = 16;

/// How much dead space the spool file carries before it is rewritten.
///
/// Merging appends its output and leaves what it read behind, so the file grows past what is
/// live in it. Rewriting at twice the live bytes keeps the file to about twice the input, and
/// each rewrite costs a pass over data that has doubled since the last one.
pub const COMPACT_AT: u64 = 2;

/// The smallest buffer a spool sorts with.
pub const MIN_SORT_BUFFER: usize = 0x1_0000;

/// What a buffered record costs besides its key and value.
pub const RECORD_OVERHEAD: usize = 56;

/// How much is gathered before it is written.
pub const WRITE_CHUNK: usize = 0x4_0000;

/// Collects records and hands them back in key order.
pub struct RecordSpool<S: Scratch> {
    encoding: SharedEncoding,
    /// Makes the scratch files.
    seed: S,
    buffer: Vec<Record>,
    buffered: usize,
    runs: Vec<Run>,
    file: Option<S>,
    write_pos: u64,
    budget: usize,
    count: u64,
    /// What went wrong, once something has.
    ///
    /// A record that could not be written is still a record this spool took in, and it
    /// cannot be taken back out: the write sorts the buffer first, and it may fail after the
    /// record is in the file for good. So the spool stops instead, and the build stops with
    /// it, rather than producing a file holding a row the caller was told had not gone in.
    spoiled: Option<ErrorKind>,
    /// Every byte the spool has written to a file, spills and merges alike.
    ///
    /// What a sort costs is the data it moves, and a merge that reads runs of unlike sizes
    /// moves the same records over and over. This counts it.
    written: u64,
    rows: Ghost<Seq<Row>>,
}

/// The records of a buffer.
pub open spec fn entries(buffer: Seq<Record>) -> Seq<Entry> {
    Seq::new(buffer.len(), |i: int| buffer[i]@)
}

/// How many rows are in runs.
pub open spec fn rows_in(runs: Seq<Run>) -> int {
    if runs.len() == 0 {
        0
    } else {
        runs.last().hi@
    }
}

/// Whether runs in a file hold the first of the rows.
pub open spec fn runs_ok(
    e: SharedEncoding,
    rows: Seq<Row>,
    file: Seq<u8>,
    runs: Seq<Run>,
) -> bool {
    &&& runs.len() > 0 ==> merge::tiled(runs, 0, rows_in(runs))
    &&& 0 <= rows_in(runs) <= rows.len()
    &&& forall|i: int|
        0 <= i < runs.len() ==> run::run_ok(e, rows, file, #[trigger] runs[i])
}

/// Whether a buffer holds the rows from `lo` on.
pub open spec fn buffer_ok(
    e: SharedEncoding,
    rows: Seq<Row>,
    lo: int,
    buffer: Seq<Record>,
) -> bool {
    &&& buffer.len() == rows.len() - lo
    &&& heap::apart(buffer)
    &&& heap::keys_taken(e, buffer)
    &&& forall|i: int|
        0 <= i < buffer.len() ==> run::member(
            rows,
            lo,
            rows.len() as int,
            (#[trigger] buffer[i])@,
        ) && run::storable(buffer[i]@)
}

/// Whether rows are ones that an encoding takes.
pub open spec fn rows_taken(e: SharedEncoding, rows: Seq<Row>) -> bool {
    forall|i: int|
        0 <= i < rows.len() ==> e.inner.well_formed((#[trigger] rows[i]).key) && e.inner.accepts(
            rows[i].key,
        )
}

/// A sorted buffer is a sorted run.
proof fn lemma_buffer_sorted(
    e: SharedEncoding,
    rows: Seq<Row>,
    lo: int,
    was: Seq<Record>,
    buffer: Seq<Record>,
)
    requires
        buffer_ok(e, rows, lo, was),
        heap::shuffled(was, buffer, was.len() as int),
        heap::apart(buffer),
        heap::keys_taken(e, buffer),
        encoding::lawful(&**e.inner) ==> heap::in_order(e, buffer),
    ensures
        buffer_ok(e, rows, lo, buffer),
        run::sorted_run(e, rows, lo, rows.len() as int, entries(buffer)),
        run::all_storable(entries(buffer)),
        run::taken(e, entries(buffer)),
{
    let l = entries(buffer);
    assert forall|i: int| 0 <= i < buffer.len() implies run::member(
        rows,
        lo,
        rows.len() as int,
        (#[trigger] buffer[i])@,
    ) && run::storable(buffer[i]@) by {
        assert(heap::among(was, was.len() as int, buffer[i]));
    }
    assert forall|i: int| 0 <= i < l.len() implies run::member(
        rows,
        lo,
        rows.len() as int,
        #[trigger] l[i],
    ) && run::storable(l[i]) && e.inner.accepts(l[i].key) by {
        assert(l[i] == buffer[i]@);
        assert(e.inner.accepts(buffer[i].rank_key()));
    }
    assert forall|i: int, j: int| 0 <= i < j < l.len() implies (#[trigger] l[i]).seq != (
    #[trigger] l[j]).seq by {
        assert(buffer[i].rank_seq() != buffer[j].rank_seq());
    }
    if encoding::lawful(&**e.inner) {
        assert forall|i: int, j: int| 0 <= i < j < l.len() implies run::entry_before(
            e,
            #[trigger] l[i],
            #[trigger] l[j],
        ) by {
            assert(heap::before(e, buffer[i], buffer[j]));
        }
    }
}

/// Runs stay where they are when more is written after them.
proof fn lemma_runs_kept(
    e: SharedEncoding,
    rows: Seq<Row>,
    more: Seq<Row>,
    a: Seq<u8>,
    b: Seq<u8>,
    runs: Seq<Run>,
)
    requires
        runs_ok(e, rows, a, runs),
        extend::is_front(a, b),
        rows.len() <= more.len(),
        forall|i: int| 0 <= i < rows.len() ==> #[trigger] more[i] == rows[i],
    ensures
        runs_ok(e, more, b, runs),
{
    assert forall|i: int| 0 <= i < runs.len() implies run::run_ok(e, more, b, #[trigger] runs[i]) by {
        merge::lemma_tiled(runs, 0, rows_in(runs), i, i);
        run::lemma_run_kept(e, rows, more, a, b, runs[i]);
    }
}

/// Reports more bytes than a file can have.
fn too_much() -> (r: Error)
    ensures
        r.kind() == ErrorKind::ValueTooLarge,
{
    Error::new(ErrorKind::ValueTooLarge, "the rows being sorted do not fit in a file")
}

/// What a record takes in a run, added to a position.
fn past_record(pos: u64, record: &Record) -> (r: Option<u64>)
    requires
        run::storable(record@),
    ensures
        match r {
            Some(n) => n == pos + run::record_bytes(record@).len(),
            None => pos + run::record_bytes(record@).len() > u64::MAX,
        },
{
    proof {
        crate::format::bytes::lemma_le8_len(record.seq as int);
        crate::format::bytes::lemma_le4_len(record.key@.len() as int);
        crate::format::bytes::lemma_le4_len(record.value@.len() as int);
    }
    let len = run::RECORD_HEADER_LEN as u64 + record.key.len() as u64 + record.value.len() as u64;
    pos.checked_add(len)
}

/// Whether records are rows.
pub open spec fn all_rows(rows: Seq<Row>, l: Seq<Entry>) -> bool {
    forall|i: int|
        0 <= i < l.len() ==> run::member(rows, 0, rows.len() as int, #[trigger] l[i])
}

/// Why up to `n` rows cannot be written to a file from `start` on.
pub open spec fn write_failed(
    dependable: bool,
    start: int,
    n: int,
    rows: Seq<Row>,
    e: Error,
) -> bool {
    ||| e.kind() == ErrorKind::Io && !dependable
    ||| e.kind() == ErrorKind::ValueTooLarge && rows.len() > 0 && pace::bursts(start, n, rows)
}

/// Why rows cannot be sorted.
pub open spec fn sort_failed(dependable: bool, rows: Seq<Row>, e: Error) -> bool {
    ||| e.kind() == ErrorKind::Io && !dependable
    ||| e.kind() == ErrorKind::ValueTooLarge && pace::overfull(rows)
}

/// Appends a run to a file, in chunks.
fn write_run<S: Scratch>(
    file: &mut S,
    start: u64,
    buffer: &Vec<Record>,
    Ghost(rows): Ghost<Seq<Row>>,
) -> (r: Result<u64, Error>)
    requires
        start == old(file).spilled().len(),
        run::all_storable(entries(buffer@)),
        all_rows(rows, entries(buffer@)),
    ensures
        final(file).dependable() == old(file).dependable(),
        match r {
            Ok(end) => {
                &&& final(file).spilled() == old(file).spilled() + run::run_bytes(
                    entries(buffer@),
                )
                &&& end == final(file).spilled().len()
                &&& pace::reaches(start as int, end as int, buffer@.len() as int, rows)
            },
            Err(e) => write_failed(
                old(file).dependable(),
                start as int,
                buffer@.len() as int,
                rows,
                e,
            ),
        },
{
    let ghost base = file.spilled();
    let ghost l = entries(buffer@);
    let mut chunk: Vec<u8> = Vec::new();
    let mut pos = start;
    let mut i: usize = 0;
    proof {
        assert(l.subrange(0, 0) =~= Seq::<Entry>::empty());
        assert(base + run::run_bytes(Seq::<Entry>::empty()) =~= base + chunk@);
    }
    while i < buffer.len()
        invariant
            i <= buffer@.len(),
            l == entries(buffer@),
            base == old(file).spilled(),
            file.dependable() == old(file).dependable(),
            run::all_storable(l),
            file.spilled() + chunk@ == base + run::run_bytes(l.subrange(0, i as int)),
            pos == file.spilled().len() + chunk@.len(),
            all_rows(rows, l),
            pace::reaches(start as int, pos as int, i as int, rows),
        decreases buffer@.len() - i,
    {
        proof {
            assert(l[i as int] == buffer@[i as int]@);
            pace::lemma_step(start as int, pos as int, i as int, rows, l[i as int]);
        }
        let next = match past_record(pos, &buffer[i]) {
            Some(n) => n,
            None => {
                proof {
                    pace::lemma_bursts(
                        start as int,
                        pos + run::record_bytes(l[i as int]).len(),
                        i + 1,
                        buffer@.len() as int,
                        rows,
                    );
                }
                return Err(too_much());
            },
        };
        let ghost held = chunk@;
        put_record(&mut chunk, &buffer[i]);
        proof {
            run::lemma_run_push(l.subrange(0, i as int), l[i as int]);
            assert(l.subrange(0, i + 1) =~= l.subrange(0, i as int).push(l[i as int]));
            assert(file.spilled() + chunk@ =~= file.spilled() + held + run::record_bytes(
                l[i as int],
            ));
            assert(base + run::run_bytes(l.subrange(0, i + 1)) =~= base + run::run_bytes(
                l.subrange(0, i as int),
            ) + run::record_bytes(l[i as int]));
        }
        pos = next;
        i += 1;
        if chunk.len() >= WRITE_CHUNK {
            match file.append(chunk.as_slice()) {
                Ok(_) => {},
                Err(e) => return Err(e),
            }
            let ghost sent = chunk@;
            chunk = Vec::new();
            proof {
                assert(file.spilled() + chunk@ =~= file.spilled());
            }
        }
    }
    match file.append(chunk.as_slice()) {
        Ok(_) => {},
        Err(e) => return Err(e),
    }
    proof {
        assert(l.subrange(0, i as int) =~= l);
    }
    Ok(pos)
}

/// Merges runs into one, appended to the file they are in.
///
/// Appending rather than rewriting is what keeps the work to the runs being merged. What
/// they read stays in the file as dead space until it is compacted away.
fn merge_within<S: Scratch>(file: &mut S, start: u64, merger: Merger) -> (r: Result<
    (u64, Ghost<Seq<Entry>>),
    Error,
>)
    requires
        start == old(file).spilled().len(),
        merger.ok(old(file).spilled()),
        merger.given() == Seq::<Entry>::empty(),
        0 <= merger.lo() <= merger.hi() <= merger.rows().len(),
    ensures
        final(file).dependable() == old(file).dependable(),
        match r {
            Ok((end, items)) => {
                &&& final(file).spilled() == old(file).spilled() + run::run_bytes(items@)
                &&& end == final(file).spilled().len()
                &&& run::sorted_run(
                    merger.key_encoding(),
                    merger.rows(),
                    merger.lo(),
                    merger.hi(),
                    items@,
                )
                &&& run::all_storable(items@)
                &&& run::taken(merger.key_encoding(), items@)
                &&& pace::reaches(
                    start as int,
                    end as int,
                    merger.hi() - merger.lo(),
                    merger.rows(),
                )
            },
            Err(e) => write_failed(
                old(file).dependable(),
                start as int,
                merger.hi() - merger.lo(),
                merger.rows(),
                e,
            ),
        },
{
    let ghost base = file.spilled();
    let mut m = merger;
    let mut chunk: Vec<u8> = Vec::new();
    let mut pos = start;
    let mut more = true;
    proof {
        m.lemma_given_len(file.spilled());
        assert(base + run::run_bytes(Seq::<Entry>::empty()) =~= base + chunk@);
    }
    while more
        invariant
            base == old(file).spilled(),
            file.dependable() == old(file).dependable(),
            m.ok(file.spilled()),
            m.key_encoding() == merger.key_encoding(),
            m.rows() == merger.rows(),
            m.lo() == merger.lo(),
            m.hi() == merger.hi(),
            file.spilled() + chunk@ == base + run::run_bytes(m.given()),
            pos == file.spilled().len() + chunk@.len(),
            !more ==> run::sorted_run(
                m.key_encoding(),
                m.rows(),
                m.lo(),
                m.hi(),
                m.given(),
            ) && run::all_storable(m.given()) && run::taken(m.key_encoding(), m.given()),
            m.given().len() <= m.hi() - m.lo(),
            0 <= m.lo() <= m.hi() <= m.rows().len(),
            pace::reaches(start as int, pos as int, m.given().len() as int, m.rows()),
        decreases
                m.hi() - m.lo() - m.given().len() + (if more {
                    1int
                } else {
                    0
                }),
    {
        let ghost read = file.spilled();
        let ghost fore = m.given();
        match m.next_record(&*file) {
            Ok(Some(record)) => {
                proof {
                    m.lemma_given_len(file.spilled());
                    pace::lemma_step(
                        start as int,
                        pos as int,
                        fore.len() as int,
                        m.rows(),
                        record@,
                    );
                }
                let next = match past_record(pos, &record) {
                    Some(n) => n,
                    None => {
                        proof {
                            pace::lemma_bursts(
                                start as int,
                                pos + run::record_bytes(record@).len(),
                                (fore.len() + 1) as int,
                                m.hi() - m.lo(),
                                m.rows(),
                            );
                        }
                        return Err(too_much());
                    },
                };
                let ghost held = chunk@;
                put_record(&mut chunk, &record);
                proof {
                    run::lemma_run_push(fore, record@);
                    assert(file.spilled() + chunk@ =~= file.spilled() + held + run::record_bytes(
                        record@,
                    ));
                    assert(base + run::run_bytes(m.given()) =~= base + run::run_bytes(fore)
                        + run::record_bytes(record@));
                    m.lemma_given_len(file.spilled());
                }
                pos = next;
            },
            Ok(None) => {
                more = false;
            },
            Err(e) => return Err(e),
        }
        if chunk.len() >= WRITE_CHUNK {
            match file.append(chunk.as_slice()) {
                Ok(_) => {},
                Err(e) => return Err(e),
            }
            chunk = Vec::new();
            proof {
                assert(file.spilled() + chunk@ =~= file.spilled());
            }
            proof {
                assert(extend::is_front(read, file.spilled())) by {
                    assert(file.spilled().subrange(0, read.len() as int) =~= read);
                }
                m.lemma_extended(read, file.spilled());
            }
        }
    }
    match file.append(chunk.as_slice()) {
        Ok(_) => {},
        Err(e) => return Err(e),
    }
    Ok((pos, Ghost(m.given())))
}

/// Merges runs of one file into a run of another.
fn merge_across<S: Scratch>(input: &S, file: &mut S, start: u64, merger: Merger) -> (r: Result<
    (u64, Ghost<Seq<Entry>>),
    Error,
>)
    requires
        start == old(file).spilled().len(),
        merger.ok(input.spilled()),
        input.dependable() == old(file).dependable(),
        merger.given() == Seq::<Entry>::empty(),
        0 <= merger.lo() <= merger.hi() <= merger.rows().len(),
    ensures
        final(file).dependable() == old(file).dependable(),
        match r {
            Ok((end, items)) => {
                &&& final(file).spilled() == old(file).spilled() + run::run_bytes(items@)
                &&& end == final(file).spilled().len()
                &&& run::sorted_run(
                    merger.key_encoding(),
                    merger.rows(),
                    merger.lo(),
                    merger.hi(),
                    items@,
                )
                &&& run::all_storable(items@)
                &&& run::taken(merger.key_encoding(), items@)
                &&& pace::reaches(
                    start as int,
                    end as int,
                    merger.hi() - merger.lo(),
                    merger.rows(),
                )
            },
            Err(e) => write_failed(
                old(file).dependable(),
                start as int,
                merger.hi() - merger.lo(),
                merger.rows(),
                e,
            ),
        },
{
    let ghost base = file.spilled();
    let mut m = merger;
    let mut chunk: Vec<u8> = Vec::new();
    let mut pos = start;
    let mut more = true;
    proof {
        m.lemma_given_len(input.spilled());
        assert(base + run::run_bytes(Seq::<Entry>::empty()) =~= base + chunk@);
    }
    while more
        invariant
            base == old(file).spilled(),
            file.dependable() == old(file).dependable(),
            input.dependable() == old(file).dependable(),
            m.ok(input.spilled()),
            m.key_encoding() == merger.key_encoding(),
            m.rows() == merger.rows(),
            m.lo() == merger.lo(),
            m.hi() == merger.hi(),
            file.spilled() + chunk@ == base + run::run_bytes(m.given()),
            pos == file.spilled().len() + chunk@.len(),
            !more ==> run::sorted_run(
                m.key_encoding(),
                m.rows(),
                m.lo(),
                m.hi(),
                m.given(),
            ) && run::all_storable(m.given()) && run::taken(m.key_encoding(), m.given()),
            m.given().len() <= m.hi() - m.lo(),
            0 <= m.lo() <= m.hi() <= m.rows().len(),
            pace::reaches(start as int, pos as int, m.given().len() as int, m.rows()),
        decreases
                m.hi() - m.lo() - m.given().len() + (if more {
                    1int
                } else {
                    0
                }),
    {
        let ghost read = file.spilled();
        let ghost fore = m.given();
        match m.next_record(input) {
            Ok(Some(record)) => {
                proof {
                    m.lemma_given_len(input.spilled());
                    pace::lemma_step(
                        start as int,
                        pos as int,
                        fore.len() as int,
                        m.rows(),
                        record@,
                    );
                }
                let next = match past_record(pos, &record) {
                    Some(n) => n,
                    None => {
                        proof {
                            pace::lemma_bursts(
                                start as int,
                                pos + run::record_bytes(record@).len(),
                                (fore.len() + 1) as int,
                                m.hi() - m.lo(),
                                m.rows(),
                            );
                        }
                        return Err(too_much());
                    },
                };
                let ghost held = chunk@;
                put_record(&mut chunk, &record);
                proof {
                    run::lemma_run_push(fore, record@);
                    assert(file.spilled() + chunk@ =~= file.spilled() + held + run::record_bytes(
                        record@,
                    ));
                    assert(base + run::run_bytes(m.given()) =~= base + run::run_bytes(fore)
                        + run::record_bytes(record@));
                    m.lemma_given_len(input.spilled());
                }
                pos = next;
            },
            Ok(None) => {
                more = false;
            },
            Err(e) => return Err(e),
        }
        if chunk.len() >= WRITE_CHUNK {
            match file.append(chunk.as_slice()) {
                Ok(_) => {},
                Err(e) => return Err(e),
            }
            chunk = Vec::new();
            proof {
                assert(file.spilled() + chunk@ =~= file.spilled());
            }
        }
    }
    match file.append(chunk.as_slice()) {
        Ok(_) => {},
        Err(e) => return Err(e),
    }
    Ok((pos, Ghost(m.given())))
}

/// Whether runs in a file hold the rows from `lo` to `hi`.
pub open spec fn runs_hold(
    e: SharedEncoding,
    rows: Seq<Row>,
    file: Seq<u8>,
    runs: Seq<Run>,
    lo: int,
    hi: int,
) -> bool {
    &&& merge::tiled(runs, lo, hi)
    &&& forall|i: int|
        0 <= i < runs.len() ==> run::run_ok(e, rows, file, #[trigger] runs[i])
}

/// A part of consecutive runs is consecutive runs.
pub proof fn lemma_part_tiled(runs: Seq<Run>, lo: int, hi: int, a: int, b: int)
    requires
        merge::tiled(runs, lo, hi),
        0 <= a < b <= runs.len(),
    ensures
        merge::tiled(runs.subrange(a, b), runs[a].lo@, runs[b - 1].hi@),
{
    let part = runs.subrange(a, b);
    assert forall|i: int| 0 <= i < part.len() - 1 implies #[trigger] merge::joined(part, i) by {
        assert(merge::joined(runs, a + i));
    }
}

/// One more run after consecutive ones.
proof fn lemma_tiled_push(runs: Seq<Run>, lo: int, hi: int, r: Run)
    requires
        runs.len() > 0 ==> merge::tiled(runs, lo, hi),
        r.lo@ == (if runs.len() > 0 {
            hi
        } else {
            lo
        }),
        r.lo@ <= r.hi@,
    ensures
        merge::tiled(runs.push(r), lo, r.hi@),
{
    let grown = runs.push(r);
    assert forall|i: int| 0 <= i < grown.len() - 1 implies #[trigger] merge::joined(grown, i) by {
        if i < runs.len() - 1 {
            assert(merge::joined(runs, i));
        }
    }
    assert forall|i: int| 0 <= i < grown.len() implies (#[trigger] grown[i]).lo@ <= grown[i].hi@ by {
        if i < runs.len() {
            assert(grown[i] == runs[i]);
        }
    }
}

/// Merges `runs` in groups of `group` into a fresh file, leaving the input untouched.
///
/// Returns the new file, the runs in it and its length, so the caller only takes the spool
/// apart once the whole pass has come off.
fn merge_groups<S: Scratch>(
    encoding: &SharedEncoding,
    input: &S,
    runs: &Vec<Run>,
    group: usize,
    Ghost(rows): Ghost<Seq<Row>>,
    Ghost(hi): Ghost<int>,
) -> (r: Result<(S, Vec<Run>, u64), Error>)
    requires
        group >= 1,
        runs_hold(*encoding, rows, input.spilled(), runs@, 0, hi),
        0 <= hi <= rows.len(),
    ensures
        match r {
            Ok((output, next, len)) => {
                &&& output.dependable() == input.dependable()
                &&& len == output.spilled().len()
                &&& runs_hold(*encoding, rows, output.spilled(), next@, 0, hi)
                &&& group == 1 ==> pace::alike(next@, runs@)
                &&& pace::reaches(0, len as int, hi, rows)
                &&& group > 1 && runs@.len() > 1 ==> next@.len() < runs@.len()
            },
            Err(e) => write_failed(input.dependable(), 0, hi, rows, e),
        },
{
    let mut output = input.fresh();
    let mut out_pos: u64 = 0;
    let mut next: Vec<Run> = Vec::new();
    let mut from: usize = 0;
    while from < runs.len()
        invariant
            from <= runs@.len(),
            group >= 1,
            0 <= hi <= rows.len(),
            runs_hold(*encoding, rows, input.spilled(), runs@, 0, hi),
            output.dependable() == input.dependable(),
            out_pos == output.spilled().len(),
            next@.len() > 0 ==> runs_hold(
                *encoding,
                rows,
                output.spilled(),
                next@,
                0,
                runs@[from - 1].hi@,
            ),
            next@.len() <= from,
            from == 0 <==> next@.len() == 0,
            group == 1 ==> pace::alike(next@, runs@.subrange(0, from as int)),
            pace::reaches(
                0,
                out_pos as int,
                if from == 0 {
                    0
                } else {
                    runs@[from - 1].hi@
                },
                rows,
            ),
            group > 1 && from > 1 ==> next@.len() < from,
            group > 1 && from == 1 ==> runs@.len() == 1,
        decreases runs@.len() - from,
    {
        let to = if runs.len() - from > group {
            from + group
        } else {
            runs.len()
        };
        let ghost lo = runs@[from as int].lo@;
        let ghost end = runs@[to - 1].hi@;
        proof {
            lemma_part_tiled(runs@, 0, hi, from as int, to as int);
            merge::lemma_tiled(runs@, 0, hi, from as int, to - 1);
            assert(lo <= end) by {
                assert(runs@[from as int].lo@ <= runs@[from as int].hi@);
                assert(runs@[to - 1].lo@ <= runs@[to - 1].hi@);
            }
            if from > 0 {
                assert(merge::joined(runs@, from - 1));
            }
        }
        let merger = match Merger::new(
            input,
            runs,
            from,
            to,
            encoding.clone(),
            Ghost(rows),
            Ghost(lo),
            Ghost(end),
        ) {
            Ok(m) => m,
            Err(e) => return Err(e),
        };
        let ghost was = output.spilled();
        let (stop, items) = match merge_across(input, &mut output, out_pos, merger) {
            Ok(done) => done,
            Err(e) => {
                proof {
                    if e.kind() != ErrorKind::Io {
                        pace::lemma_burst_later(0, out_pos as int, lo, end - lo, hi, rows);
                    }
                }
                return Err(e);
            },
        };
        // A group merged into one is one more merge for all of them; a run copied on its
        // own is the run it was.
        let level = if to - from == 1 {
            runs[from].level
        } else {
            let mut top: u32 = 0;
            let mut k = from;
            while k < to
                invariant
                    from <= k <= to <= runs@.len(),
                decreases to - k,
            {
                if runs[k].level > top {
                    top = runs[k].level;
                }
                k += 1;
            }
            top.saturating_add(1)
        };
        let merged = Run {
            start: out_pos,
            end: stop,
            level,
            items,
            lo: Ghost(lo),
            hi: Ghost(end),
        };
        proof {
            assert(output.spilled().subrange(out_pos as int, stop as int) =~= run::run_bytes(
                items@,
            ));
            assert(extend::is_front(was, output.spilled())) by {
                assert(output.spilled().subrange(0, was.len() as int) =~= was);
            }
            let fore = next@;
            let mid = if from > 0 {
                runs@[from - 1].hi@
            } else {
                0
            };
            lemma_tiled_push(fore, 0, mid, merged);
            assert forall|i: int| 0 <= i < fore.push(merged).len() implies run::run_ok(
                *encoding,
                rows,
                output.spilled(),
                #[trigger] fore.push(merged)[i],
            ) by {
                if i < fore.len() {
                    assert(run::run_ok(*encoding, rows, was, fore[i]));
                    merge::lemma_tiled(fore, 0, mid, i, i);
                    merge::lemma_tiled(runs@, 0, hi, from - 1, from - 1);
                    run::lemma_run_kept(*encoding, rows, rows, was, output.spilled(), fore[i]);
                }
            }
        }
        proof {
            pace::lemma_further(0, out_pos as int, stop as int, lo, end - lo, rows);
            if group == 1 {
                let (a, b) = (next@.push(merged), runs@.subrange(0, to as int));
                assert forall|i: int| 0 <= i < a.len() implies (#[trigger] a[i]).level
                    == b[i].level && a[i].lo@ == b[i].lo@ && a[i].hi@ == b[i].hi@ by {
                    if i < next@.len() {
                        assert(a[i] == next@[i]);
                        assert(b[i] == runs@.subrange(0, from as int)[i]);
                    }
                }
            }
        }
        next.push(merged);
        out_pos = stop;
        from = to;
    }
    proof {
        assert(runs@.subrange(0, from as int) =~= runs@);
    }
    Ok((output, next, out_pos))
}

impl<S: Scratch> RecordSpool<S> {
    /// Every row pushed.
    pub closed spec fn rows(&self) -> Seq<Row> {
        self.rows@
    }

    /// The encoding rows are sorted by.
    pub closed spec fn key_encoding(&self) -> SharedEncoding {
        self.encoding
    }

    /// What went wrong, once something has.
    pub closed spec fn failure(&self) -> Option<ErrorKind> {
        self.spoiled
    }

    /// Whether spilling cannot fail.
    pub closed spec fn dependable(&self) -> bool {
        self.seed.dependable()
    }

    /// What the buffer holds.
    pub closed spec fn spec_buffered(&self) -> usize {
        self.buffered
    }

    spec fn file_bytes(&self) -> Seq<u8> {
        match self.file {
            Some(f) => f.spilled(),
            None => Seq::empty(),
        }
    }

    /// Whether the runs and the buffer hold the rows.
    spec fn sound(&self) -> bool {
        &&& runs_ok(self.encoding, self.rows@, self.file_bytes(), self.runs@)
        &&& buffer_ok(self.encoding, self.rows@, rows_in(self.runs@), self.buffer@)
        &&& self.write_pos == self.file_bytes().len()
        &&& self.runs@.len() > 0 ==> self.file is Some
        &&& self.file matches Some(f) ==> f.dependable() == self.seed.dependable()
    }

    /// Whether the spool is in a state its methods keep.
    pub closed spec fn wf(&self) -> bool {
        &&& self.count == self.rows@.len()
        &&& rows_taken(self.encoding, self.rows@)
        &&& self.spoiled is None ==> self.sound() && self.in_pace()
    }

    /// Whether the file is no longer than what its runs took to write.
    spec fn in_pace(&self) -> bool {
        pace::paced(self.rows@, self.runs@, self.write_pos as int)
    }

    /// Whether two spools hold the same rows.
    spec fn same(&self, other: RecordSpool<S>) -> bool {
        &&& self.encoding == other.encoding
        &&& self.rows@ == other.rows@
        &&& self.count == other.count
        &&& self.seed == other.seed
        &&& self.spoiled == other.spoiled
    }

    /// Creates a spool sorting with `encoding`, buffering at most `budget` bytes of records,
    /// bookkeeping included, before spilling to a file like `seed`.
    pub fn new(encoding: SharedEncoding, seed: S, budget: usize) -> (r: RecordSpool<S>)
        ensures
            r.wf(),
            r.rows() == Seq::<Row>::empty(),
            r.key_encoding() == encoding,
            r.failure() is None,
            r.dependable() == seed.dependable(),
            r.spec_buffered() == 0,
    {
        RecordSpool {
            encoding,
            seed,
            buffer: Vec::new(),
            buffered: 0,
            runs: Vec::new(),
            file: None,
            write_pos: 0,
            budget: if budget < MIN_SORT_BUFFER {
                MIN_SORT_BUFFER
            } else {
                budget
            },
            count: 0,
            spoiled: None,
            written: 0,
            rows: Ghost(Seq::empty()),
        }
    }

    /// Changes how much a record buffer holds before it spills.
    pub fn set_budget(&mut self, budget: usize)
        requires
            old(self).wf(),
        ensures
            final(self).wf(),
            final(self).rows() == old(self).rows(),
            final(self).key_encoding() == old(self).key_encoding(),
            final(self).failure() == old(self).failure(),
            final(self).dependable() == old(self).dependable(),
            final(self).spec_buffered() == old(self).spec_buffered(),
    {
        self.budget = if budget < MIN_SORT_BUFFER {
            MIN_SORT_BUFFER
        } else {
            budget
        };
    }

    /// Number of records appended.
    pub fn len(&self) -> (r: u64)
        requires
            self.wf(),
        ensures
            r == self.rows().len(),
    {
        self.count
    }

    /// What the buffer holds: the record payload and the bookkeeping beside it. A run of
    /// empty keys and empty values is all bookkeeping, so counting the payload alone would
    /// let the buffer grow with the input and never spill.
    pub fn buffered_bytes(&self) -> (r: usize)
        ensures
            r == self.spec_buffered(),
    {
        self.buffered
    }

    /// Whether anything more can be done with this spool.
    fn check_usable(&self) -> (r: Result<(), Error>)
        ensures
            match r {
                Ok(_) => self.failure() is None,
                Err(e) => self.failure() == Some(e.kind()),
            },
    {
        match self.spoiled {
            None => Ok(()),
            Some(kind) => Err(
                Error::new(
                    kind,
                    "a row could not be written and cannot be taken back, so this build cannot go on; start it again",
                ),
            ),
        }
    }

    /// Appends a record.
    pub fn push(&mut self, key: &[u8], value: &[u8]) -> (r: Result<(), Error>)
        requires
            old(self).wf(),
        ensures
            final(self).wf(),
            final(self).key_encoding() == old(self).key_encoding(),
            final(self).dependable() == old(self).dependable(),
            match r {
                Ok(_) => {
                    &&& old(self).failure() is None
                    &&& final(self).failure() is None
                    &&& old(self).key_encoding().inner.well_formed(key@)
                    &&& old(self).key_encoding().inner.accepts(key@)
                    &&& final(self).rows() == old(self).rows().push(
                        Row { key: key@, value: value@ },
                    )
                },
                Err(e) => {
                    ||| old(self).failure() == Some(e.kind()) && final(self).failure()
                        == old(self).failure() && final(self).rows() == old(self).rows()
                    // The row is refused, and the spool is as it was.
                    ||| final(self).failure() is None && old(self).failure() is None
                        && final(self).rows() == old(self).rows() && (e.kind()
                        == ErrorKind::ValueTooLarge && too_long(old(self).rows(), key@, value@)
                        || !e.is_resource() && !(old(self).key_encoding().inner.well_formed(key@)
                        && old(self).key_encoding().inner.accepts(key@)))
                    // The row went in, and spilling failed.
                    ||| {
                        &&& final(self).failure() == Some(e.kind())
                        &&& old(self).failure() is None
                        &&& final(self).rows() == old(self).rows().push(
                            Row { key: key@, value: value@ },
                        )
                        &&& sort_failed(old(self).dependable(), final(self).rows(), e)
                    }
                },
            },
    {
        match self.check_usable() {
            Ok(_) => {},
            Err(e) => return Err(e),
        }
        match self.encoding.inner.validate_key(key) {
            Ok(_) => {},
            Err(e) => return Err(e),
        }
        // Computing the digest now fails fast on a key the encoding cannot handle, so the
        // sort below only sees keys it can order.
        match self.encoding.inner.digest(key) {
            Ok(_) => {},
            Err(e) => return Err(e),
        }
        if key.len() as u64 > 0xFFFF_FFFF || value.len() as u64 > 0xFFFF_FFFF || self.count
            == u64::MAX {
            return Err(
                Error::new(
                    ErrorKind::ValueTooLarge,
                    "a record's key and value lengths have to fit in 32 bits",
                ),
            );
        }
        let record = Record { seq: self.count, key: copied(key), value: copied(value) };
        let ghost row = Row { key: key@, value: value@ };
        let ghost fore = self.rows@;
        let ghost held = self.buffer@;
        proof {
            let more = fore.push(row);
            let file = self.file_bytes();
            assert(file =~= file.subrange(0, file.len() as int));
            lemma_runs_kept(
                self.encoding,
                fore,
                more,
                self.file_bytes(),
                self.file_bytes(),
                self.runs@,
            );
            lemma_buffer_push(self.encoding, fore, rows_in(self.runs@), held, record, row);
        }
        self.buffered = self.buffered.saturating_add(key.len()).saturating_add(
            value.len(),
        ).saturating_add(RECORD_OVERHEAD);
        self.buffer.push(record);
        self.count = self.count + 1;
        proof {
            self.rows@ = fore.push(row);
        }
        proof {
            pace::lemma_more_rows(
                0,
                self.write_pos as int,
                pace::weight(self.runs@),
                fore,
                self.rows@,
            );
        }
        if self.buffered >= self.budget {
            // Once the record is in, a failure cannot be undone: writing sorts the buffer,
            // so where the record went is no longer where it was put, and the failure may
            // come after it has been written out for good. What can be said for certain is
            // that this spool no longer holds what the caller was told it holds, so nothing
            // more is done with it.
            match self.spill() {
                Ok(_) => {},
                Err(e) => {
                    self.spoiled = Some(e.kind());
                    return Err(e);
                },
            }
        }
        Ok(())
    }

    /// Writes the buffer out now, whatever it holds.
    ///
    /// For a builder balancing several tables against one sort buffer: the table that holds
    /// the most gives its buffer up so the others can keep theirs.
    pub fn flush(&mut self) -> (r: Result<(), Error>)
        requires
            old(self).wf(),
        ensures
            final(self).wf(),
            final(self).key_encoding() == old(self).key_encoding(),
            final(self).dependable() == old(self).dependable(),
            final(self).rows() == old(self).rows(),
            match r {
                Ok(_) => old(self).failure() is None && final(self).failure() is None
                    && final(self).spec_buffered() == 0,
                Err(e) => {
                    &&& final(self).failure() == Some(e.kind())
                    &&& old(self).failure() == Some(e.kind()) || old(self).failure() is None
                        && sort_failed(old(self).dependable(), old(self).rows(), e)
                },
            },
    {
        match self.check_usable() {
            Ok(_) => {},
            Err(e) => return Err(e),
        }
        match self.spill() {
            Ok(_) => Ok(()),
            Err(e) => {
                self.spoiled = Some(e.kind());
                Err(e)
            },
        }
    }

    /// Writes the buffer to the file as a run.
    fn spill(&mut self) -> (r: Result<(), Error>)
        requires
            old(self).sound(),
            old(self).in_pace(),
        ensures
            final(self).same(*old(self)),
            match r {
                Ok(_) => final(self).sound() && final(self).in_pace() && final(self).buffer@.len()
                    == 0
                    && final(self).buffered == 0 && (old(self).runs@.len() > 0
                    ==> final(self).runs@.len() > 0),
                Err(e) => sort_failed(old(self).seed.dependable(), old(self).rows@, e),
            },
    {
        if self.buffer.len() == 0 {
            self.buffered = 0;
            return Ok(());
        }
        let ghost was = self.buffer@;
        let ghost lo = rows_in(self.runs@);
        heap_sort(&self.encoding, &mut self.buffer);
        proof {
            lemma_buffer_sorted(self.encoding, self.rows@, lo, was, self.buffer@);
        }
        let mut file = match self.file.take() {
            Some(f) => f,
            None => self.seed.fresh(),
        };
        let start = self.write_pos;
        let ghost base = file.spilled();
        let ghost hi = self.rows@.len() as int;
        let end = match write_run(&mut file, start, &self.buffer, Ghost(self.rows@)) {
            Ok(end) => end,
            Err(e) => {
                proof {
                    if e.kind() != ErrorKind::Io {
                        pace::lemma_overfull(self.rows@, self.runs@, lo, start as int, hi - lo);
                    }
                }
                return Err(e);
            },
        };
        let ghost items = entries(self.buffer@);
        let made = Run {
            start,
            end,
            level: 0,
            items: Ghost(items),
            lo: Ghost(lo),
            hi: Ghost(self.rows@.len() as int),
        };
        proof {
            assert(file.spilled().subrange(start as int, end as int) =~= run::run_bytes(items));
            assert(extend::is_front(base, file.spilled())) by {
                assert(file.spilled().subrange(0, base.len() as int) =~= base);
            }
            lemma_runs_kept(
                self.encoding,
                self.rows@,
                self.rows@,
                base,
                file.spilled(),
                self.runs@,
            );
            lemma_tiled_push(self.runs@, 0, lo, made);
            pace::lemma_written(self.rows@, self.runs@, made, start as int, end as int);
        }
        let ghost fore = self.runs@;
        self.written = self.written.saturating_add(end - start);
        self.runs.push(made);
        self.file = Some(file);
        self.write_pos = end;
        self.buffer = Vec::new();
        self.buffered = 0;
        proof {
            assert forall|i: int| 0 <= i < self.runs@.len() implies run::run_ok(
                self.encoding,
                self.rows@,
                self.file_bytes(),
                #[trigger] self.runs@[i],
            ) by {
                if i < fore.len() {
                    assert(self.runs@[i] == fore[i]);
                }
            }
        }
        // Merged as they pile up rather than only at the end, so the list of them cannot
        // grow with the input.
        self.merge_tiers()
    }

    /// Merges the newest runs whenever enough of the same level have piled up.
    ///
    /// One spill makes one run, so without this the list of them grows with the input, which
    /// is memory the sort buffer does not stand for. Merging only runs of the same level
    /// keeps each merge to data of about the same size: over a whole build that is one pass
    /// per level, where merging whatever is there would be a pass over everything spooled so
    /// far every time.
    fn merge_tiers(&mut self) -> (r: Result<(), Error>)
        requires
            old(self).sound(),
            old(self).in_pace(),
            old(self).buffer@.len() == 0,
            old(self).buffered == 0,
            old(self).runs@.len() > 0,
        ensures
            final(self).same(*old(self)),
            match r {
                Ok(_) => final(self).sound() && final(self).in_pace() && final(self).buffer@.len()
                    == 0
                    && final(self).buffered == 0 && final(self).runs@.len() > 0,
                Err(e) => sort_failed(old(self).seed.dependable(), old(self).rows@, e),
            },
    {
        let mut more = true;
        while more && self.runs.len() >= MERGE_FAN_IN
            invariant
                self.sound(),
                self.in_pace(),
                self.same(*old(self)),
                self.buffer@.len() == 0,
                self.buffered == 0,
                self.runs@.len() > 0,
            decreases
                    self.runs@.len() + (if more {
                        1int
                    } else {
                        0
                    }),
        {
            let tail = self.runs.len() - MERGE_FAN_IN;
            let level = self.runs[tail].level;
            let mut alike = true;
            let mut i = tail;
            while i < self.runs.len()
                invariant
                    tail <= i <= self.runs@.len(),
                    alike ==> forall|j: int|
                        tail <= j < i ==> (#[trigger] self.runs@[j]).level == level,
                decreases self.runs@.len() - i,
            {
                if self.runs[i].level != level {
                    alike = false;
                }
                i += 1;
            }
            if alike {
                match self.merge_tail(MERGE_FAN_IN, level.saturating_add(1)) {
                    Ok(_) => {},
                    Err(e) => return Err(e),
                }
            } else {
                more = false;
            }
        }
        // The merges above leave what they read behind, so the file carries dead space.
        let mut live: u64 = 0;
        let mut i: usize = 0;
        while i < self.runs.len()
            invariant
                i <= self.runs@.len(),
                self.sound(),
            decreases self.runs@.len() - i,
        {
            proof {
                assert(run::run_ok(
                    self.encoding,
                    self.rows@,
                    self.file_bytes(),
                    self.runs@[i as int],
                ));
            }
            live = live.saturating_add(self.runs[i].end - self.runs[i].start);
            i += 1;
        }
        if self.write_pos as u128 > COMPACT_AT as u128 * live as u128 && self.runs.len() > 1 {
            return self.rewrite();
        }
        Ok(())
    }

    /// Merges the last `count` runs into one, appended to the spool file.
    fn merge_tail(&mut self, count: usize, level: u32) -> (r: Result<(), Error>)
        requires
            old(self).sound(),
            old(self).in_pace(),
            pace::one_level(old(self).runs@, old(self).runs@.len() - count, level),
            old(self).buffer@.len() == 0,
            2 <= count <= old(self).runs@.len(),
        ensures
            final(self).same(*old(self)),
            match r {
                Ok(_) => final(self).sound() && final(self).in_pace() && final(self).buffer@.len()
                    == 0
                    && final(self).buffered == old(self).buffered && final(self).runs@.len()
                    == old(self).runs@.len() - count + 1,
                Err(e) => sort_failed(old(self).seed.dependable(), old(self).rows@, e),
            },
    {
        let at = self.runs.len() - count;
        let n = self.runs.len();
        let ghost hi = rows_in(self.runs@);
        let ghost lo = self.runs@[at as int].lo@;
        let ghost rows = self.rows@;
        let mut file = match self.file.take() {
            Some(f) => f,
            None => return Err(too_much()),
        };
        let start = self.write_pos;
        let ghost base = file.spilled();
        proof {
            lemma_part_tiled(self.runs@, 0, hi, at as int, n as int);
            merge::lemma_tiled(self.runs@, 0, hi, at as int, n - 1);
        }
        let merger = match Merger::new(
            &file,
            &self.runs,
            at,
            n,
            self.encoding.clone(),
            Ghost(rows),
            Ghost(lo),
            Ghost(hi),
        ) {
            Ok(m) => m,
            Err(e) => return Err(e),
        };
        let (end, items) = match merge_within(&mut file, start, merger) {
            Ok(done) => done,
            Err(e) => {
                proof {
                    if e.kind() != ErrorKind::Io {
                        pace::lemma_overfull(rows, self.runs@, hi, start as int, hi - lo);
                    }
                }
                return Err(e);
            },
        };
        let made = Run { start, end, level, items, lo: Ghost(lo), hi: Ghost(hi) };
        let ghost fore = self.runs@.subrange(0, at as int);
        proof {
            assert(file.spilled().subrange(start as int, end as int) =~= run::run_bytes(items@));
            assert(extend::is_front(base, file.spilled())) by {
                assert(file.spilled().subrange(0, base.len() as int) =~= base);
            }
            lemma_runs_kept(self.encoding, rows, rows, base, file.spilled(), self.runs@);
            if at > 0 {
                lemma_part_tiled(self.runs@, 0, hi, 0, at as int);
                assert(merge::joined(self.runs@, at - 1));
            }
            assert(lo <= hi) by {
                assert(self.runs@[at as int].lo@ <= self.runs@[at as int].hi@);
                assert(self.runs@[n - 1].lo@ <= self.runs@[n - 1].hi@);
            }
            lemma_tiled_push(fore, 0, lo, made);
            pace::lemma_merged(rows, self.runs@, hi, at as int, made, start as int, end as int);
        }
        self.written = self.written.saturating_add(end - start);
        self.runs.truncate(at);
        proof {
            assert(self.runs@ =~= fore);
        }
        self.runs.push(made);
        self.file = Some(file);
        self.write_pos = end;
        proof {
            assert forall|i: int| 0 <= i < self.runs@.len() implies run::run_ok(
                self.encoding,
                rows,
                self.file_bytes(),
                #[trigger] self.runs@[i],
            ) by {
                if i < fore.len() {
                    assert(self.runs@[i] == fore[i]);
                }
            }
        }
        Ok(())
    }

    /// Writes the runs out to a fresh file in groups, and goes on with that file.
    fn regroup(&mut self, group: usize) -> (r: Result<(), Error>)
        requires
            old(self).sound(),
            old(self).buffer@.len() == 0,
            old(self).runs@.len() > 1,
            group >= 1,
        ensures
            final(self).same(*old(self)),
            match r {
                Ok(_) => final(self).sound() && (group == 1 && old(self).in_pace()
                    ==> final(self).in_pace()) && final(self).buffer@.len() == 0
                    && final(self).buffered == old(self).buffered && final(self).runs@.len() > 0
                    && (group > 1 ==> final(self).runs@.len() < old(self).runs@.len()) && (group
                    == 1 ==> final(self).runs@.len() == old(self).runs@.len()),
                Err(e) => sort_failed(old(self).seed.dependable(), old(self).rows@, e),
            },
    {
        let ghost hi = rows_in(self.runs@);
        let file = match self.file.take() {
            Some(f) => f,
            None => return Err(too_much()),
        };
        match merge_groups(
            &self.encoding,
            &file,
            &self.runs,
            group,
            Ghost(self.rows@),
            Ghost(hi),
        ) {
            Ok((output, next, len)) => {
                proof {
                    if group == 1 && self.in_pace() {
                        pace::lemma_rewritten(
                            self.rows@,
                            self.runs@,
                            next@,
                            hi,
                            self.write_pos as int,
                            len as int,
                        );
                    }
                }
                self.written = self.written.saturating_add(len);
                self.file = Some(output);
                self.runs = next;
                self.write_pos = len;
                Ok(())
            },
            Err(e) => {
                proof {
                    if e.kind() != ErrorKind::Io {
                        pace::lemma_burst_whole(self.rows@, hi);
                    }
                }
                self.file = Some(file);
                Err(e)
            },
        }
    }

    /// Writes the live runs out to a fresh file, leaving the dead space behind.
    fn rewrite(&mut self) -> (r: Result<(), Error>)
        requires
            old(self).sound(),
            old(self).in_pace(),
            old(self).buffer@.len() == 0,
            old(self).runs@.len() > 1,
        ensures
            final(self).same(*old(self)),
            match r {
                Ok(_) => final(self).sound() && final(self).in_pace() && final(self).buffer@.len()
                    == 0
                    && final(self).buffered == old(self).buffered && final(self).runs@.len() > 0,
                Err(e) => sort_failed(old(self).seed.dependable(), old(self).rows@, e),
            },
    {
        self.regroup(1)
    }

    /// Merges runs in groups until at most [`MERGE_FAN_IN`] remain.
    ///
    /// Each pass writes its output to a fresh file and drops the old one, so the space used
    /// is the input size twice over at most, and the merge that follows opens a bounded
    /// number of runs however small the sort buffer was.
    fn reduce_runs(&mut self) -> (r: Result<(), Error>)
        requires
            old(self).sound(),
            old(self).buffer@.len() == 0,
            old(self).runs@.len() > 0,
        ensures
            final(self).same(*old(self)),
            match r {
                Ok(_) => final(self).sound() && final(self).buffer@.len() == 0
                    && 0 < final(self).runs@.len() <= MERGE_FAN_IN,
                Err(e) => sort_failed(old(self).seed.dependable(), old(self).rows@, e),
            },
    {
        while self.runs.len() > MERGE_FAN_IN
            invariant
                self.sound(),
                self.same(*old(self)),
                self.buffer@.len() == 0,
                self.runs@.len() > 0,
            decreases self.runs@.len(),
        {
            match self.regroup(MERGE_FAN_IN) {
                Ok(_) => {},
                Err(e) => return Err(e),
            }
        }
        Ok(())
    }

    /// Finishes collecting and returns the records in `(key, sequence)` order.
    pub fn into_sorted(self) -> (r: Result<SortedRecords<S>, Error>)
        requires
            self.wf(),
        ensures
            match r {
                Ok(sorted) => {
                    &&& self.failure() is None
                    &&& sorted.wf()
                    &&& rows_taken(self.key_encoding(), self.rows())
                    &&& sorted.rows() == self.rows()
                    &&& sorted.key_encoding() == self.key_encoding()
                    &&& sorted.given() == Seq::<Entry>::empty()
                    &&& sorted.dependable() == self.dependable()
                    &&& sorted matches SortedRecords::Merged { merger, .. } ==> merger.spec_runs()
                        <= MERGE_FAN_IN
                },
                Err(e) => self.failure() == Some(e.kind()) || self.failure() is None
                    && sort_failed(self.dependable(), self.rows(), e),
            },
    {
        match self.check_usable() {
            Ok(_) => {},
            Err(e) => return Err(e),
        }
        let mut this = self;
        if this.runs.len() == 0 {
            let ghost was = this.buffer@;
            heap_sort(&this.encoding, &mut this.buffer);
            proof {
                lemma_buffer_sorted(this.encoding, this.rows@, 0, was, this.buffer@);
                assert(entries(this.buffer@).subrange(0, 0) =~= Seq::<Entry>::empty());
            }
            return Ok(
                SortedRecords::Memory {
                    records: this.buffer,
                    next: 0,
                    held: this.buffered,
                    encoding: this.encoding,
                    rows: this.rows,
                    dependable: Ghost(this.seed.dependable()),
                },
            );
        }
        match this.spill() {
            Ok(_) => {},
            Err(e) => return Err(e),
        }
        match this.reduce_runs() {
            Ok(_) => {},
            Err(e) => return Err(e),
        }
        let n = this.runs.len();
        let ghost hi = rows_in(this.runs@);
        let file = match this.file.take() {
            Some(f) => f,
            None => return Err(too_much()),
        };
        proof {
            assert(this.runs@.subrange(0, n as int) =~= this.runs@);
        }
        match Merger::new(
            &file,
            &this.runs,
            0,
            n,
            this.encoding.clone(),
            Ghost(this.rows@),
            Ghost(0),
            Ghost(hi),
        ) {
            Ok(merger) => Ok(SortedRecords::Merged { file, merger }),
            Err(e) => Err(e),
        }
    }
}

/// Whether a row cannot be taken after others for its lengths or their count.
pub open spec fn too_long(rows: Seq<Row>, key: Seq<u8>, value: Seq<u8>) -> bool {
    key.len() > 0xFFFF_FFFF || value.len() > 0xFFFF_FFFF || rows.len() >= u64::MAX
}

/// One more record in the buffer.
proof fn lemma_buffer_push(
    e: SharedEncoding,
    rows: Seq<Row>,
    lo: int,
    buffer: Seq<Record>,
    record: Record,
    row: Row,
)
    requires
        buffer_ok(e, rows, lo, buffer),
        lo <= rows.len(),
        record.seq == rows.len(),
        record.key@ == row.key,
        record.value@ == row.value,
        e.inner.accepts(row.key),
        run::storable(record@),
    ensures
        buffer_ok(e, rows.push(row), lo, buffer.push(record)),
{
    let (more, grown) = (rows.push(row), buffer.push(record));
    assert forall|i: int| 0 <= i < grown.len() implies run::member(
        more,
        lo,
        more.len() as int,
        (#[trigger] grown[i])@,
    ) && run::storable(grown[i]@) by {
        if i < buffer.len() {
            assert(grown[i] == buffer[i]);
            assert(run::member(rows, lo, rows.len() as int, buffer[i]@));
            assert(more[buffer[i]@.seq as int] == rows[buffer[i]@.seq as int]);
        }
    }
    assert forall|i: int, j: int| 0 <= i < j < grown.len() implies (
    #[trigger] grown[i]).rank_seq() != (#[trigger] grown[j]).rank_seq() by {
        assert(grown[i] == buffer[i]);
        assert(run::member(rows, lo, rows.len() as int, buffer[i]@));
        if j < buffer.len() {
            assert(grown[j] == buffer[j]);
        }
    }
    assert forall|i: int| 0 <= i < grown.len() implies e.inner.accepts(
        (#[trigger] grown[i]).rank_key(),
    ) by {
        if i < buffer.len() {
            assert(grown[i] == buffer[i]);
        }
    }
}

/// A sorted stream of records.
pub enum SortedRecords<S: Scratch> {
    /// Everything fitted in the buffer.
    Memory {
        records: Vec<Record>,
        next: usize,
        held: usize,
        encoding: SharedEncoding,
        rows: Ghost<Seq<Row>>,
        dependable: Ghost<bool>,
    },
    /// Several spilled runs, merged on the fly.
    Merged { file: S, merger: Merger },
}

impl<S: Scratch> SortedRecords<S> {
    /// The rows being read.
    pub open spec fn rows(&self) -> Seq<Row> {
        match self {
            SortedRecords::Memory { rows, .. } => rows@,
            SortedRecords::Merged { merger, .. } => merger.rows(),
        }
    }

    /// The encoding they are sorted by.
    pub open spec fn key_encoding(&self) -> SharedEncoding {
        match self {
            SortedRecords::Memory { encoding, .. } => *encoding,
            SortedRecords::Merged { merger, .. } => merger.key_encoding(),
        }
    }

    /// The records given out so far.
    pub open spec fn given(&self) -> Seq<Entry> {
        match self {
            SortedRecords::Memory { records, next, .. } => entries(records@).subrange(
                0,
                *next as int,
            ),
            SortedRecords::Merged { merger, .. } => merger.given(),
        }
    }

    /// Whether reading cannot fail.
    pub open spec fn dependable(&self) -> bool {
        match self {
            SortedRecords::Memory { dependable, .. } => dependable@,
            SortedRecords::Merged { file, .. } => file.dependable(),
        }
    }

    /// Whether the stream is in a state its methods keep.
    pub open spec fn wf(&self) -> bool {
        match self {
            SortedRecords::Memory { records, next, encoding, rows, .. } => {
                &&& next <= records@.len()
                &&& run::sorted_run(*encoding, rows@, 0, rows@.len() as int, entries(records@))
                &&& run::taken(*encoding, entries(records@))
            },
            SortedRecords::Merged { file, merger } => {
                &&& merger.ok(file.spilled())
                &&& merger.lo() == 0
                &&& merger.hi() == merger.rows().len()
            },
        }
    }

    /// No more records are given out than there are rows.
    pub proof fn lemma_given_len(&self)
        requires
            self.wf(),
        ensures
            self.given().len() <= self.rows().len(),
    {
        match self {
            SortedRecords::Memory { .. } => {},
            SortedRecords::Merged { file, merger } => {
                merger.lemma_given_len(file.spilled());
            },
        }
    }

    /// What the records being read hold in memory.
    ///
    /// Everything when the sort fitted in the buffer; the merge's front records and their
    /// readers otherwise, which the fan-in bounds.
    pub fn held_bytes(&self) -> (r: usize)
        ensures
            r == match self {
                SortedRecords::Memory { held, .. } => *held,
                SortedRecords::Merged { .. } => 0,
            },
    {
        match self {
            SortedRecords::Memory { held, .. } => *held,
            SortedRecords::Merged { .. } => 0,
        }
    }

    /// The next record. Returns `Ok(None)` at the end of the stream.
    pub fn next_record(&mut self) -> (r: Result<Option<Record>, Error>)
        requires
            old(self).wf(),
        ensures
            final(self).rows() == old(self).rows(),
            final(self).key_encoding() == old(self).key_encoding(),
            final(self).dependable() == old(self).dependable(),
            match r {
                Ok(Some(record)) => {
                    &&& final(self).wf()
                    &&& final(self).given() == old(self).given().push(record@)
                    &&& run::member(
                        old(self).rows(),
                        0,
                        old(self).rows().len() as int,
                        record@,
                    )
                    &&& old(self).key_encoding().inner.accepts(record@.key)
                    &&& encoding::lawful(&**old(self).key_encoding().inner)
                        ==> run::entries_in_order(
                        old(self).key_encoding(),
                        final(self).given(),
                    )
                },
                Ok(None) => {
                    &&& final(self).wf()
                    &&& final(self).given() == old(self).given()
                    &&& run::sorted_run(
                        old(self).key_encoding(),
                        old(self).rows(),
                        0,
                        old(self).rows().len() as int,
                        old(self).given(),
                    )
                },
                Err(e) => e.kind() == ErrorKind::Io && !old(self).dependable(),
            },
    {
        match self {
            SortedRecords::Memory { records, next, .. } => {
                let ghost all = entries(records@);
                if *next >= records.len() {
                    proof {
                        assert(all.subrange(0, *next as int) =~= all);
                    }
                    return Ok(None);
                }
                let i = *next;
                let record = Record {
                    seq: records[i].seq,
                    key: copied(records[i].key.as_slice()),
                    value: copied(records[i].value.as_slice()),
                };
                *next = i + 1;
                proof {
                    assert(all[i as int] == records@[i as int]@);
                    assert(entries(records@) == all);
                    assert(all.subrange(0, i + 1) =~= all.subrange(0, i as int).push(record@));
                }
                Ok(Some(record))
            },
            SortedRecords::Merged { file, merger } => merger.next_record(&*file),
        }
    }
}

} // verus!

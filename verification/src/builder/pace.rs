//! How long the file of a sort gets.
//!
//! Every merge appends the rows it merges once more, and a run of a level holds at least
//! twice the rows of a run of the level below it. So a row is appended no more often than
//! there are levels, and the levels are no more than the bits of a row count.

use vstd::arithmetic::power2;
use vstd::prelude::*;

use super::merge;
use super::run::{self, Entry, Run};
use super::spool;
use crate::format::bytes;
use crate::model::Row;

verus! {

/// How often a row is in the file of a sort at most.
pub const SORT_PASSES: u64 = 65;

/// Whether no row takes more than `cap` bytes in a run.
pub open spec fn rows_within(rows: Seq<Row>, cap: int) -> bool {
    forall|i: int|
        0 <= i < rows.len() ==> run::RECORD_HEADER_LEN + (#[trigger] rows[i]).key.len()
            + rows[i].value.len() <= cap
}

/// Whether `end` is no further from `start` than `n` of the longest rows reach.
pub open spec fn reaches(start: int, end: int, n: int, rows: Seq<Row>) -> bool {
    forall|cap: int| #[trigger] rows_within(rows, cap) ==> end <= start + n * cap
}

/// Whether `n` of the longest rows reach past the end of any file from `start`.
pub open spec fn bursts(start: int, n: int, rows: Seq<Row>) -> bool {
    forall|cap: int| #[trigger] rows_within(rows, cap) ==> start + n * cap > u64::MAX
}

/// Whether rows can be more than a file holds while they are sorted.
pub open spec fn overfull(rows: Seq<Row>) -> bool {
    bursts(0, SORT_PASSES * rows.len(), rows)
}

/// Whether runs hold as many rows as their levels say.
pub open spec fn steady(runs: Seq<Run>) -> bool {
    forall|i: int|
        0 <= i < runs.len() ==> power2::pow2((#[trigger] runs[i]).level as nat) <= runs[i].hi@
            - runs[i].lo@
}

/// How many rows have been written to have these runs, one counted as often as it was.
pub open spec fn weight(runs: Seq<Run>) -> int
    decreases runs.len(),
{
    if runs.len() == 0 {
        0
    } else {
        weight(runs.drop_last()) + (runs.last().hi@ - runs.last().lo@) * (runs.last().level + 1)
    }
}

/// Whether a file is no longer than what its runs took to write.
pub open spec fn paced(rows: Seq<Row>, runs: Seq<Run>, len: int) -> bool {
    &&& rows.len() <= u64::MAX
    &&& steady(runs)
    &&& reaches(0, len, weight(runs), rows)
}

/// One more record reaches one row further.
pub proof fn lemma_step(start: int, pos: int, n: int, rows: Seq<Row>, x: Entry)
    requires
        reaches(start, pos, n, rows),
        run::member(rows, 0, rows.len() as int, x),
        run::storable(x),
    ensures
        reaches(start, pos + run::record_bytes(x).len(), n + 1, rows),
{
    bytes::lemma_le8_len(x.seq as int);
    bytes::lemma_le4_len(x.key.len() as int);
    bytes::lemma_le4_len(x.value.len() as int);
    assert forall|cap: int| #[trigger] rows_within(rows, cap) implies pos + run::record_bytes(
        x,
    ).len() <= start + (n + 1) * cap by {
        assert(rows[x.seq as int].key == x.key);
        assert((n + 1) * cap == n * cap + cap) by (nonlinear_arith);
    }
}

/// What reaches past the end of any file is too much.
pub proof fn lemma_bursts(start: int, pos: int, n: int, m: int, rows: Seq<Row>)
    requires
        reaches(start, pos, n, rows),
        pos > u64::MAX,
        0 <= n <= m,
        rows.len() > 0,
    ensures
        bursts(start, m, rows),
{
    assert forall|cap: int| #[trigger] rows_within(rows, cap) implies start + m * cap
        > u64::MAX by {
        assert(rows[0].key.len() >= 0);
        assert(n * cap <= m * cap) by (nonlinear_arith)
            requires
                0 <= n <= m,
                cap >= 0,
        ;
    }
}

/// One reach after another.
pub proof fn lemma_further(a: int, b: int, c: int, n: int, m: int, rows: Seq<Row>)
    requires
        reaches(a, b, n, rows),
        reaches(b, c, m, rows),
    ensures
        reaches(a, c, n + m, rows),
{
    assert forall|cap: int| #[trigger] rows_within(rows, cap) implies c <= a + (n + m) * cap by {
        assert((n + m) * cap == n * cap + m * cap) by (nonlinear_arith);
    }
}

/// What bursts after some of the rows bursts with all of them.
pub proof fn lemma_burst_later(a: int, b: int, n: int, m: int, all: int, rows: Seq<Row>)
    requires
        reaches(a, b, n, rows),
        bursts(b, m, rows),
        n + m <= all,
        rows.len() > 0,
    ensures
        bursts(a, all, rows),
{
    assert forall|cap: int| #[trigger] rows_within(rows, cap) implies a + all * cap > u64::MAX by {
        assert(rows[0].key.len() >= 0);
        assert(n * cap + m * cap <= all * cap) by (nonlinear_arith)
            requires
                n + m <= all,
                cap >= 0,
        ;
    }
}

/// Rows that burst a file of their own are too many.
pub proof fn lemma_burst_whole(rows: Seq<Row>, n: int)
    requires
        0 <= n <= rows.len(),
        rows.len() > 0,
        bursts(0, n, rows),
    ensures
        overfull(rows),
{
    lemma_burst_later(0, 0, 0, n, SORT_PASSES * rows.len(), rows);
}

/// The same reach over more rows.
pub proof fn lemma_more_rows(start: int, end: int, n: int, rows: Seq<Row>, more: Seq<Row>)
    requires
        reaches(start, end, n, rows),
        rows.len() <= more.len(),
        forall|i: int| 0 <= i < rows.len() ==> #[trigger] more[i] == rows[i],
    ensures
        reaches(start, end, n, more),
{
    assert forall|cap: int| #[trigger] rows_within(more, cap) implies end <= start + n * cap by {
        assert forall|i: int| 0 <= i < rows.len() implies run::RECORD_HEADER_LEN + (
        #[trigger] rows[i]).key.len() + rows[i].value.len() <= cap by {
            assert(more[i] == rows[i]);
        }
        assert(rows_within(rows, cap));
    }
}

/// A level is less than the bits of a row count.
proof fn lemma_level(r: Run)
    requires
        power2::pow2(r.level as nat) <= r.hi@ - r.lo@ <= u64::MAX,
    ensures
        r.level <= 63,
{
    if r.level > 63 {
        power2::lemma2_to64_rest();
        if r.level > 64 {
            power2::lemma_pow2_strictly_increases(64, r.level as nat);
        }
    }
}

/// The weight of runs is bounded by their rows.
proof fn lemma_weight(runs: Seq<Run>, hi: int)
    requires
        runs.len() > 0 ==> merge::tiled(runs, 0, hi),
        runs.len() == 0 ==> hi == 0,
        steady(runs),
        hi <= u64::MAX,
    ensures
        0 <= weight(runs) <= 64 * hi,
    decreases runs.len(),
{
    if runs.len() > 0 {
        let (front, r) = (runs.drop_last(), runs.last());
        let n = runs.len() as int;
        let mid = r.lo@;
        merge::lemma_tiled(runs, 0, hi, n - 1, n - 1);
        if n > 1 {
            spool::lemma_part_tiled(runs, 0, hi, 0, n - 1);
            assert(merge::joined(runs, n - 2));
            assert(runs.subrange(0, n - 1) =~= front);
        }
        assert forall|i: int| 0 <= i < front.len() implies power2::pow2(
            (#[trigger] front[i]).level as nat,
        ) <= front[i].hi@ - front[i].lo@ by {
            assert(front[i] == runs[i]);
        }
        lemma_weight(front, mid);
        assert(power2::pow2(runs[n - 1].level as nat) <= r.hi@ - r.lo@);
        lemma_level(r);
        let k = hi - mid;
        assert(0 <= k * (r.level + 1) <= 64 * k) by (nonlinear_arith)
            requires
                k >= 0,
                0 <= r.level <= 63,
        ;
    }
}

/// The weight of runs that end in runs of one level.
proof fn lemma_weight_tail(runs: Seq<Run>, hi: int, at: int, level: u32)
    requires
        merge::tiled(runs, 0, hi),
        0 <= at < runs.len(),
        forall|i: int| at <= i < runs.len() ==> (#[trigger] runs[i]).level == level,
    ensures
        weight(runs) == weight(runs.subrange(0, at)) + (hi - runs[at].lo@) * (level + 1),
    decreases runs.len(),
{
    let n = runs.len() as int;
    let (front, r) = (runs.drop_last(), runs.last());
    assert(runs[n - 1].level == level);
    if at == n - 1 {
        assert(runs.subrange(0, at) =~= front);
    } else {
        spool::lemma_part_tiled(runs, 0, hi, 0, n - 1);
        assert(runs.subrange(0, n - 1) =~= front);
        assert(merge::joined(runs, n - 2));
        let mid = r.lo@;
        lemma_weight_tail(front, mid, at, level);
        assert(front.subrange(0, at) =~= runs.subrange(0, at));
        let (a, b) = (mid - runs[at].lo@, hi - mid);
        assert((a + b) * (level + 1) == a * (level + 1) + b * (level + 1)) by (nonlinear_arith);
    }
}

/// A run of the lowest level written at the end.
pub proof fn lemma_written(rows: Seq<Row>, runs: Seq<Run>, r: Run, pos: int, end: int)
    requires
        paced(rows, runs, pos),
        r.level == 0,
        r.hi@ - r.lo@ >= 1,
        reaches(pos, end, r.hi@ - r.lo@, rows),
    ensures
        paced(rows, runs.push(r), end),
{
    let grown = runs.push(r);
    power2::lemma2_to64();
    assert forall|i: int| 0 <= i < grown.len() implies power2::pow2(
        (#[trigger] grown[i]).level as nat,
    ) <= grown[i].hi@ - grown[i].lo@ by {
        if i < runs.len() {
            assert(grown[i] == runs[i]);
        }
    }
    assert(grown.drop_last() =~= runs);
    let k = r.hi@ - r.lo@;
    let level = r.level;
    assert(k * (level + 1) == k) by (nonlinear_arith)
        requires
            level == 0,
    ;
    lemma_further(0, pos, end, weight(runs), k, rows);
}

/// Whether the runs from `at` on are of one level, and `next` is the level after it.
pub open spec fn one_level(runs: Seq<Run>, at: int, next: u32) -> bool {
    &&& forall|i: int| at <= i < runs.len() ==> (#[trigger] runs[i]).level == runs[at].level
    &&& next == (if runs[at].level == u32::MAX {
        u32::MAX
    } else {
        (runs[at].level + 1) as u32
    })
}

/// Runs of one level merged into one of the next.
pub proof fn lemma_merged(
    rows: Seq<Row>,
    runs: Seq<Run>,
    hi: int,
    at: int,
    r: Run,
    pos: int,
    end: int,
)
    requires
        merge::tiled(runs, 0, hi),
        0 <= hi <= rows.len(),
        paced(rows, runs, pos),
        0 <= at < runs.len() - 1,
        one_level(runs, at, r.level),
        r.lo@ == runs[at].lo@,
        r.hi@ == hi,
        reaches(pos, end, hi - r.lo@, rows),
    ensures
        paced(rows, runs.subrange(0, at).push(r), end),
{
    let n = runs.len() as int;
    let front = runs.subrange(0, at);
    let grown = front.push(r);
    let level = runs[at].level;
    merge::lemma_tiled(runs, 0, hi, at, n - 1);
    assert(power2::pow2(runs[at].level as nat) <= runs[at].hi@ - runs[at].lo@);
    assert(power2::pow2(runs[n - 1].level as nat) <= runs[n - 1].hi@ - runs[n - 1].lo@);
    lemma_level(runs[at]);
    power2::lemma_pow2_unfold((level + 1) as nat);
    assert forall|i: int| 0 <= i < grown.len() implies power2::pow2(
        (#[trigger] grown[i]).level as nat,
    ) <= grown[i].hi@ - grown[i].lo@ by {
        if i < at {
            assert(grown[i] == runs[i]);
        }
    }
    lemma_weight_tail(runs, hi, at, level);
    assert(grown.drop_last() =~= front);
    let k = hi - r.lo@;
    assert(k * (level + 2) == k * (level + 1) + k) by (nonlinear_arith);
    lemma_further(0, pos, end, weight(runs), k, rows);
}

/// Whether runs are of the same rows and levels as others.
pub open spec fn alike(a: Seq<Run>, b: Seq<Run>) -> bool {
    &&& a.len() == b.len()
    &&& forall|i: int|
        0 <= i < a.len() ==> (#[trigger] a[i]).level == b[i].level && a[i].lo@ == b[i].lo@
            && a[i].hi@ == b[i].hi@
}

proof fn lemma_alike_weight(a: Seq<Run>, b: Seq<Run>, hi: int)
    requires
        alike(a, b),
        a.len() > 0 ==> merge::tiled(a, 0, hi),
        a.len() == 0 ==> hi == 0,
        steady(a),
    ensures
        weight(a) == weight(b),
        weight(a) >= hi,
    decreases a.len(),
{
    if a.len() > 0 {
        let n = a.len() as int;
        assert(a[n - 1].level == b[n - 1].level);
        merge::lemma_tiled(a, 0, hi, n - 1, n - 1);
        let mid = a.last().lo@;
        if n > 1 {
            spool::lemma_part_tiled(a, 0, hi, 0, n - 1);
            assert(merge::joined(a, n - 2));
            assert(a.subrange(0, n - 1) =~= a.drop_last());
        }
        assert forall|i: int| 0 <= i < n - 1 implies (#[trigger] a.drop_last()[i]).level
            == b.drop_last()[i].level && a.drop_last()[i].lo@ == b.drop_last()[i].lo@
            && a.drop_last()[i].hi@ == b.drop_last()[i].hi@ by {
            assert(a[i].level == b[i].level);
        }
        assert forall|i: int| 0 <= i < n - 1 implies power2::pow2(
            (#[trigger] a.drop_last()[i]).level as nat,
        ) <= a.drop_last()[i].hi@ - a.drop_last()[i].lo@ by {
            assert(a.drop_last()[i] == a[i]);
        }
        lemma_alike_weight(a.drop_last(), b.drop_last(), mid);
        let k = a.last().hi@ - a.last().lo@;
        let level = a.last().level;
        assert(k * (level + 1) >= k) by (nonlinear_arith)
            requires
                k >= 0,
                level >= 0,
        ;
    }
}

/// The same runs written to a file of their own.
pub proof fn lemma_rewritten(
    rows: Seq<Row>,
    runs: Seq<Run>,
    next: Seq<Run>,
    hi: int,
    pos: int,
    len: int,
)
    requires
        merge::tiled(runs, 0, hi),
        0 <= hi <= rows.len(),
        paced(rows, runs, pos),
        alike(next, runs),
        merge::tiled(next, 0, hi),
        reaches(0, len, hi, rows),
    ensures
        paced(rows, next, len),
{
    assert forall|i: int| 0 <= i < next.len() implies power2::pow2(
        (#[trigger] next[i]).level as nat,
    ) <= next[i].hi@ - next[i].lo@ by {
        assert(next[i].level == runs[i].level);
    }
    lemma_alike_weight(next, runs, hi);
    let w = weight(next);
    assert forall|cap: int| #[trigger] rows_within(rows, cap) implies len <= w * cap by {
        if rows.len() > 0 {
            assert(rows[0].key.len() >= 0);
            assert(hi * cap <= w * cap) by (nonlinear_arith)
                requires
                    hi <= w,
                    cap >= 0,
            ;
        } else {
            merge::lemma_tiled(next, 0, hi, 0, 0);
            assert(power2::pow2(next[0].level as nat) <= next[0].hi@ - next[0].lo@);
            power2::lemma_pow2_pos(next[0].level as nat);
        }
    }
}

/// Rows that burst a file that kept pace are too many.
pub proof fn lemma_overfull(rows: Seq<Row>, runs: Seq<Run>, hi: int, pos: int, n: int)
    requires
        runs.len() > 0 ==> merge::tiled(runs, 0, hi),
        runs.len() == 0 ==> hi == 0,
        paced(rows, runs, pos),
        0 <= hi <= rows.len(),
        0 <= n <= rows.len(),
        rows.len() > 0,
        bursts(pos, n, rows),
    ensures
        overfull(rows),
{
    lemma_weight(runs, hi);
    let (w, all) = (weight(runs), rows.len() as int);
    assert forall|cap: int| #[trigger] rows_within(rows, cap) implies 0 + SORT_PASSES * rows.len()
        * cap > u64::MAX by {
        assert(rows[0].key.len() >= 0);
        assert(w * cap + n * cap <= 65 * all * cap) by (nonlinear_arith)
            requires
                0 <= w <= 64 * all,
                0 <= n <= all,
                cap >= 0,
        ;
    }
}

} // verus!

//! Keeping what the sorters of a build hold inside one buffer.
//!
//! The buffer is what the build may hold, not what each sorter may hold: whichever holds
//! the most gives its buffer up when the total goes over.

use vstd::prelude::*;

use super::pace;
use super::plan::TableSpec;
use super::scratch::Scratch;
use super::spool::RecordSpool;
use crate::error::{Error, ErrorKind};

verus! {

/// What a set of sorters holds between them.
pub open spec fn held<S: Scratch>(spools: Seq<RecordSpool<S>>) -> int
    decreases spools.len(),
{
    if spools.len() == 0 {
        0
    } else {
        held(spools.drop_last()) + spools.last().spec_buffered()
    }
}

/// The sorters of tables.
pub open spec fn spools_of<S: Scratch>(tables: Seq<TableSpec<S>>) -> Seq<RecordSpool<S>> {
    Seq::new(tables.len(), |i: int| tables[i].spool)
}

/// One sorter's share of the total.
pub proof fn lemma_held_update<S: Scratch>(
    spools: Seq<RecordSpool<S>>,
    i: int,
    now: RecordSpool<S>,
)
    requires
        0 <= i < spools.len(),
    ensures
        held(spools.update(i, now)) == held(spools) - spools[i].spec_buffered()
            + now.spec_buffered(),
    decreases spools.len(),
{
    let l = spools.update(i, now);
    if i == spools.len() - 1 {
        assert(l.drop_last() =~= spools.drop_last());
    } else {
        lemma_held_update(spools.drop_last(), i, now);
        assert(l.drop_last() =~= spools.drop_last().update(i, now));
        assert(l.last() == spools.last());
    }
}

/// A total is at least what any one sorter holds.
proof fn lemma_held_bound<S: Scratch>(spools: Seq<RecordSpool<S>>, most: int)
    requires
        forall|i: int| 0 <= i < spools.len() ==> (#[trigger] spools[i]).spec_buffered() <= most,
        0 <= most,
    ensures
        0 <= held(spools) <= most * spools.len(),
    decreases spools.len(),
{
    if spools.len() > 0 {
        assert forall|i: int| 0 <= i < spools.drop_last().len() implies (
        #[trigger] spools.drop_last()[i]).spec_buffered() <= most by {
            assert(spools.drop_last()[i] == spools[i]);
        }
        lemma_held_bound(spools.drop_last(), most);
        assert(most * (spools.len() - 1) + most == most * spools.len()) by (nonlinear_arith);
    }
}

/// No sorter holds more than all of them.
pub proof fn lemma_share<S: Scratch>(spools: Seq<RecordSpool<S>>, i: int)
    requires
        0 <= i < spools.len(),
    ensures
        spools[i].spec_buffered() <= held(spools),
    decreases spools.len(),
{
    lemma_held_total(spools.drop_last());
    if i < spools.len() - 1 {
        lemma_share(spools.drop_last(), i);
    }
}

/// What sorters hold between them can be counted.
pub proof fn lemma_held_total<S: Scratch>(spools: Seq<RecordSpool<S>>)
    ensures
        0 <= held(spools) <= 0xFFFF_FFFF_FFFF_FFFF * spools.len(),
{
    lemma_held_bound(spools, 0xFFFF_FFFF_FFFF_FFFF);
}

/// Whether sorters hold the same records, wherever they keep them.
pub open spec fn same_records<S: Scratch>(
    a: Seq<RecordSpool<S>>,
    b: Seq<RecordSpool<S>>,
) -> bool {
    &&& a.len() == b.len()
    &&& forall|i: int| 0 <= i < a.len() ==> #[trigger] same_spool(a[i], b[i])
}

/// Whether a sorter holds the same records.
pub open spec fn same_spool<S: Scratch>(a: RecordSpool<S>, b: RecordSpool<S>) -> bool {
    &&& b.wf()
    &&& b.rows() == a.rows()
    &&& b.key_encoding() == a.key_encoding()
    &&& b.dependable() == a.dependable()
}

/// Whether every sorter is in order.
pub open spec fn all_wf<S: Scratch>(spools: Seq<RecordSpool<S>>) -> bool {
    forall|i: int| 0 <= i < spools.len() ==> (#[trigger] spools[i]).wf()
}

/// Whether spilling any of the sorters cannot fail.
pub open spec fn all_dependable<S: Scratch>(spools: Seq<RecordSpool<S>>) -> bool {
    forall|i: int| 0 <= i < spools.len() ==> (#[trigger] spools[i]).dependable()
}

/// Whether an error is one a sorter ran into before.
pub open spec fn failed_before<S: Scratch>(spools: Seq<RecordSpool<S>>, e: Error) -> bool {
    exists|i: int| 0 <= i < spools.len() && (#[trigger] spools[i]).failure() == Some(e.kind())
}

/// Whether one of the sorters has more rows than a file can hold while they are sorted.
pub open spec fn some_overfull<S: Scratch>(spools: Seq<RecordSpool<S>>) -> bool {
    exists|i: int| 0 <= i < spools.len() && pace::overfull((#[trigger] spools[i]).rows())
}

/// Why giving buffers up can fail.
pub open spec fn spill_failure<S: Scratch>(spools: Seq<RecordSpool<S>>, e: Error) -> bool {
    ||| failed_before(spools, e)
    ||| e.kind() == ErrorKind::ValueTooLarge && some_overfull(spools)
    ||| e.kind() == ErrorKind::Io && !all_dependable(spools)
}

/// What sorters hold, and which of them holds the most.
fn measure<S: Scratch>(spools: &Vec<RecordSpool<S>>) -> (r: (u128, usize))
    ensures
        r.0 == held(spools@),
        spools@.len() > 0 ==> r.1 < spools@.len(),
        forall|i: int|
            0 <= i < spools@.len() ==> (#[trigger] spools@[i]).spec_buffered()
                <= spools@[r.1 as int].spec_buffered(),
{
    let mut total: u128 = 0;
    let mut fullest: usize = 0;
    let mut i: usize = 0;
    while i < spools.len()
        invariant
            i <= spools@.len(),
            total == held(spools@.subrange(0, i as int)),
            i > 0 ==> fullest < i,
            total <= 0xFFFF_FFFF_FFFF_FFFF * i,
            forall|j: int|
                0 <= j < i ==> (#[trigger] spools@[j]).spec_buffered()
                    <= spools@[fullest as int].spec_buffered(),
        decreases spools@.len() - i,
    {
        let here = spools[i].buffered_bytes();
        assert(total + here <= 0xFFFF_FFFF_FFFF_FFFF * (i + 1) <= u128::MAX);
        total = total + here as u128;
        if i == 0 || here >= spools[fullest].buffered_bytes() {
            fullest = i;
        }
        i += 1;
        proof {
            let l = spools@.subrange(0, i as int);
            assert(l.drop_last() =~= spools@.subrange(0, i - 1));
        }
    }
    proof {
        assert(spools@.subrange(0, i as int) =~= spools@);
    }
    (total, fullest)
}

/// Keeps what a set of sorters holds between them inside one buffer, by writing out
/// whichever holds the most.
pub fn keep_inside<S: Scratch>(spools: &mut Vec<RecordSpool<S>>, budget: usize) -> (r: Result<
    (),
    Error,
>)
    requires
        all_wf(old(spools)@),
    ensures
        same_records(old(spools)@, final(spools)@),
        match r {
            Ok(_) => {
                &&& held(final(spools)@) <= budget
                &&& forall|i: int|
                    0 <= i < old(spools)@.len() && (#[trigger] old(spools)@[i]).failure() is None
                        ==> final(spools)@[i].failure() is None
                &&& held(old(spools)@) <= budget ==> final(spools)@ == old(spools)@
            },
            Err(e) => spill_failure(old(spools)@, e),
        },
{
    let ghost was = spools@;
    loop
        invariant
            was == old(spools)@,
            all_wf(was),
            same_records(was, spools@),
            forall|i: int|
                0 <= i < was.len() && (#[trigger] was[i]).failure() is None
                    ==> spools@[i].failure() is None,
            forall|i: int|
                0 <= i < was.len() && (#[trigger] was[i]).failure() is Some
                    ==> spools@[i].failure() == was[i].failure(),
            held(was) <= budget ==> spools@ == was,
        decreases held(spools@),
    {
        let (total, fullest) = measure(spools);
        if total <= budget as u128 {
            return Ok(());
        }
        let ghost now = spools@;
        proof {
            if now.len() > 0 {
                lemma_held_bound(now, now[fullest as int].spec_buffered() as int);
                assert(now[fullest as int].spec_buffered() > 0) by {
                    if now[fullest as int].spec_buffered() == 0 {
                        assert(0 * now.len() == 0) by (nonlinear_arith);
                    }
                }
            }
            assert(same_spool(was[fullest as int], now[fullest as int]));
        }
        match spools[fullest].flush() {
            Ok(_) => {},
            Err(e) => {
                proof {
                    assert forall|i: int| 0 <= i < was.len() implies #[trigger] same_spool(
                        was[i],
                        spools@[i],
                    ) by {
                        assert(same_spool(was[i], now[i]));
                    }
                }
                return Err(e);
            },
        }
        proof {
            assert(spools@ =~= now.update(fullest as int, spools@[fullest as int]));
            lemma_held_update(now, fullest as int, spools@[fullest as int]);
            lemma_held_bound(spools@, usize::MAX as int);
            assert forall|i: int| 0 <= i < was.len() implies #[trigger] same_spool(
                was[i],
                spools@[i],
            ) by {
                assert(same_spool(was[i], now[i]));
            }
        }
    }
}

/// Whether tables hold the same rows, wherever they keep them.
pub open spec fn same_tables<S: Scratch>(a: Seq<TableSpec<S>>, b: Seq<TableSpec<S>>) -> bool {
    &&& a.len() == b.len()
    &&& forall|i: int| 0 <= i < a.len() ==> #[trigger] same_table(a[i], b[i])
}

/// Whether a table holds the same rows.
pub open spec fn same_table<S: Scratch>(a: TableSpec<S>, b: TableSpec<S>) -> bool {
    &&& b.name == a.name
    &&& b.encoding == a.encoding
    &&& b.secondaries == a.secondaries
    &&& same_spool(a.spool, b.spool)
}

/// What tables hold in their sorters, and which of them holds the most.
pub(crate) fn measure_tables<S: Scratch>(tables: &Vec<TableSpec<S>>) -> (r: (u128, usize))
    ensures
        r.0 == held(spools_of(tables@)),
        tables@.len() > 0 ==> r.1 < tables@.len(),
        forall|i: int|
            0 <= i < tables@.len() ==> (#[trigger] tables@[i]).spool.spec_buffered()
                <= tables@[r.1 as int].spool.spec_buffered(),
{
    let ghost spools = spools_of(tables@);
    let mut total: u128 = 0;
    let mut fullest: usize = 0;
    let mut i: usize = 0;
    while i < tables.len()
        invariant
            i <= tables@.len(),
            spools == spools_of(tables@),
            total == held(spools.subrange(0, i as int)),
            i > 0 ==> fullest < i,
            total <= 0xFFFF_FFFF_FFFF_FFFF * i,
            forall|j: int|
                0 <= j < i ==> (#[trigger] tables@[j]).spool.spec_buffered()
                    <= tables@[fullest as int].spool.spec_buffered(),
        decreases tables@.len() - i,
    {
        let here = tables[i].spool.buffered_bytes();
        assert(total + here <= 0xFFFF_FFFF_FFFF_FFFF * (i + 1) <= u128::MAX);
        total = total + here as u128;
        if i == 0 || here >= tables[fullest].spool.buffered_bytes() {
            fullest = i;
        }
        i += 1;
        proof {
            let l = spools.subrange(0, i as int);
            assert(l.drop_last() =~= spools.subrange(0, i - 1));
            assert(l.last() == tables@[i - 1].spool);
        }
    }
    proof {
        assert(spools.subrange(0, i as int) =~= spools);
    }
    (total, fullest)
}

/// Keeps what tables hold in their sorters inside one buffer, by writing out whichever
/// holds the most. Returns what they hold.
pub fn keep_tables_inside<S: Scratch>(tables: &mut Vec<TableSpec<S>>, budget: usize) -> (r: Result<
    usize,
    Error,
>)
    requires
        forall|i: int| 0 <= i < old(tables)@.len() ==> (#[trigger] old(tables)@[i]).wf(),
    ensures
        same_tables(old(tables)@, final(tables)@),
        forall|i: int| 0 <= i < final(tables)@.len() ==> (#[trigger] final(tables)@[i]).wf(),
        match r {
            Ok(now) => {
                &&& now == held(spools_of(final(tables)@))
                &&& now <= budget
                &&& forall|i: int|
                    0 <= i < old(tables)@.len() ==> (#[trigger] final(tables)@[i]).spool.failure()
                        == old(tables)@[i].spool.failure()
                &&& held(spools_of(old(tables)@)) <= budget ==> final(tables)@ == old(tables)@
            },
            Err(e) => {
                &&& spill_failure(spools_of(old(tables)@), e)
                &&& failed_before(spools_of(final(tables)@), e)
            },
        },
{
    let ghost was = tables@;
    let ghost spools0 = spools_of(was);
    loop
        invariant
            was == old(tables)@,
            spools0 == spools_of(was),
            forall|i: int| 0 <= i < was.len() ==> (#[trigger] was[i]).wf(),
            forall|i: int| 0 <= i < tables@.len() ==> (#[trigger] tables@[i]).wf(),
            same_tables(was, tables@),
            forall|i: int|
                0 <= i < was.len() ==> (#[trigger] tables@[i]).spool.failure()
                    == was[i].spool.failure(),
            held(spools0) <= budget ==> tables@ == was,
        decreases held(spools_of(tables@)),
    {
        let (total, fullest) = measure_tables(tables);
        if total <= budget as u128 {
            return Ok(total as usize);
        }
        let ghost now = tables@;
        let ghost spools = spools_of(now);
        proof {
            if now.len() > 0 {
                assert forall|i: int| 0 <= i < spools.len() implies (
                #[trigger] spools[i]).spec_buffered() <= now[fullest as int].spool.spec_buffered() by {
                    assert(spools[i] == now[i].spool);
                }
                lemma_held_bound(spools, now[fullest as int].spool.spec_buffered() as int);
                assert(now[fullest as int].spool.spec_buffered() > 0) by {
                    if now[fullest as int].spool.spec_buffered() == 0 {
                        assert(0 * spools.len() == 0) by (nonlinear_arith);
                    }
                }
            }
            assert(same_table(was[fullest as int], now[fullest as int]));
            assert(spools0[fullest as int] == was[fullest as int].spool);
        }
        match tables[fullest].spool.flush() {
            Ok(_) => {},
            Err(e) => {
                proof {
                    assert forall|i: int| 0 <= i < was.len() implies #[trigger] same_table(
                        was[i],
                        tables@[i],
                    ) by {
                        assert(same_table(was[i], now[i]));
                    }
                    assert(spools_of(tables@)[fullest as int].failure() == Some(e.kind()));
                    assert(spools0[fullest as int].rows() == now[fullest as int].spool.rows());
                    if e.kind() == ErrorKind::Io && !now[fullest as int].spool.dependable() {
                        assert(!spools0[fullest as int].dependable());
                    }
                }
                return Err(e);
            },
        }
        proof {
            let after = spools_of(tables@);
            assert(after =~= spools.update(fullest as int, after[fullest as int]));
            assert(spools[fullest as int] == now[fullest as int].spool);
            lemma_held_update(spools, fullest as int, after[fullest as int]);
            lemma_held_bound(after, usize::MAX as int);
            assert forall|i: int| 0 <= i < was.len() implies #[trigger] same_table(
                was[i],
                tables@[i],
            ) by {
                assert(same_table(was[i], now[i]));
            }
        }
    }
}

} // verus!

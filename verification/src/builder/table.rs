//! Building the trees of one table.

use vstd::prelude::*;

use super::balance::{self, keep_inside};
use super::describe::{self, patch_root, TableRoots};
use super::indexing::{self, build_index_tree};
use super::level;
use super::pace;
use super::report::{self, IndexReport, TableReport};
use super::plan::{self, IndexPlan, PagePlan, SecondaryKeyFn, SecondarySpec, TablePlan, TableSpec};
use super::room;
use super::run::{self, Entry};
use super::scratch::Scratch;
use super::sink::{self, PageSink};
use super::spool::{self, RecordSpool, SortedRecords};
use super::target::BuildTarget;
use super::tree::{self, Placed, TreeWriter};
use crate::encoding::{self, KeyEncoding, KeyOrder, SharedEncoding};
use crate::error::{Error, ErrorKind, Words};
use crate::format::amend;
use crate::format::catalog::{self, TableModel};
use crate::format::pageref::{PageRef, PAGE_REF_LEN};
use crate::format::PageOrdinal;
use crate::model::{self, Row};

verus! {

broadcast use crate::format::group_format;

/// The index key of a record.
pub open spec fn derived(ix: IndexPlan, row: Row) -> Option<Seq<u8>> {
    ix.key_fn.inner.index_key(row.key, row.value)
}

/// Whether some row of a table has no key in one of its indexes.
pub open spec fn key_missing(t: TablePlan) -> bool {
    exists|i: int, j: int|
        0 <= i < t.rows.len() && 0 <= j < t.indexes.len() && #[trigger] derived(
            t.indexes[j],
            t.rows[i],
        ) is None
}

/// Whether one of a table's indexes cannot hold the key of some row.
pub open spec fn key_refused(t: TablePlan) -> bool {
    exists|i: int, j: int|
        0 <= i < t.rows.len() && 0 <= j < t.indexes.len() && (#[trigger] derived(
            t.indexes[j],
            t.rows[i],
        ) matches Some(k) && !(t.indexes[j].encoding.inner.well_formed(k)
            && t.indexes[j].encoding.inner.accepts(k)))
}

/// The keys of a row in every index.
pub open spec fn keyed(plans: Seq<IndexPlan>, row: Row, keys: Seq<Seq<u8>>) -> bool {
    &&& keys.len() == plans.len()
    &&& forall|j: int|
        0 <= j < plans.len() ==> #[trigger] derived(plans[j], row) == Some(keys[j])
}

/// Derives the key of a record in every index.
fn derive_keys(secondaries: &Vec<SecondarySpec>, key: &[u8], value: &[u8]) -> (r: Result<
    Vec<Vec<u8>>,
    Error,
>)
    ensures
        match r {
            Ok(keys) => keyed(
                plan::index_plans(secondaries@),
                Row { key: key@, value: value@ },
                tree::strings(keys@),
            ),
            Err(_) => exists|j: int|
                0 <= j < secondaries@.len() && #[trigger] derived(
                    plan::index_plans(secondaries@)[j],
                    Row { key: key@, value: value@ },
                ) is None,
        },
{
    let ghost plans = plan::index_plans(secondaries@);
    let ghost row = Row { key: key@, value: value@ };
    let mut keys: Vec<Vec<u8>> = Vec::new();
    let mut j: usize = 0;
    while j < secondaries.len()
        invariant
            j <= secondaries@.len(),
            keys@.len() == j,
            plans == plan::index_plans(secondaries@),
            row == (Row { key: key@, value: value@ }),
            forall|i: int|
                0 <= i < j ==> #[trigger] derived(plans[i], row) == Some(keys@[i]@),
        decreases secondaries@.len() - j,
    {
        let spec = &secondaries[j];
        proof {
            assert(plans[j as int] == spec@);
        }
        match spec.key_fn.inner.derive(key, value) {
            Ok(k) => keys.push(k),
            Err(e) => {
                proof {
                    assert(derived(plans[j as int], row) is None);
                }
                return Err(e);
            },
        }
        proof {
            assert(derived(plans[j as int], row) == Some(keys@[j as int]@));
        }
        j += 1;
    }
    Ok(keys)
}

/// The records an index gets from rows, by the keys of the rows and where their values are.
pub open spec fn records_for(
    row_keys: Seq<Seq<Seq<u8>>>,
    refs: Seq<PageRef>,
    i: int,
) -> Seq<Row> {
    Seq::new(refs.len(), |q: int| Row { key: row_keys[q][i], value: refs[q].bytes() })
}

/// Whether the sorters of a table's indexes hold the records of its first rows.
pub open spec fn spools_fed<S: Scratch>(
    spools: Seq<RecordSpool<S>>,
    plans: Seq<IndexPlan>,
    row_keys: Seq<Seq<Seq<u8>>>,
    refs: Seq<PageRef>,
    dependable: bool,
) -> bool {
    &&& spools.len() == plans.len()
    &&& forall|i: int|
        0 <= i < spools.len() ==> #[trigger] spool_fed(
            spools[i],
            plans[i],
            row_keys,
            refs,
            i,
            dependable,
        )
}

/// Whether the sorter of an index holds the records of a table's first rows.
pub open spec fn spool_fed<S: Scratch>(
    spool: RecordSpool<S>,
    ix: IndexPlan,
    row_keys: Seq<Seq<Seq<u8>>>,
    refs: Seq<PageRef>,
    i: int,
    dependable: bool,
) -> bool {
    &&& spool.wf()
    &&& spool.failure() is None
    &&& spool.dependable() == dependable
    &&& spool.key_encoding() == ix.encoding
    &&& spool.rows() == records_for(row_keys, refs, i)
}

/// Whether a row's key is one that an index cannot hold.
pub open spec fn some_refused(plans: Seq<IndexPlan>, keys: Seq<Seq<u8>>) -> bool {
    exists|j: int|
        0 <= j < plans.len() && !((#[trigger] plans[j]).encoding.inner.well_formed(keys[j])
            && plans[j].encoding.inner.accepts(keys[j]))
}

/// Whether index keys are too many, or one of them is longer than the format can say.
pub open spec fn keys_large(row_keys: Seq<Seq<Seq<u8>>>, width: int) -> bool {
    ||| row_keys.len() >= 0x8000_0000
    ||| exists|q: int, j: int|
        0 <= q < row_keys.len() && 0 <= j < width && (#[trigger] row_keys[q][j]).len() > 0xFFFF
}

/// Index keys that are too many to sort are large.
proof fn lemma_keys_large(row_keys: Seq<Seq<Seq<u8>>>, refs: Seq<PageRef>, i: int, width: int)
    requires
        refs.len() <= row_keys.len(),
        0 <= i < width,
        pace::overfull(records_for(row_keys, refs, i)),
    ensures
        keys_large(row_keys, width),
{
    let rows = records_for(row_keys, refs, i);
    if !keys_large(row_keys, width) {
        let cap: int = 0x1_0020;
        assert forall|q: int| 0 <= q < rows.len() implies run::RECORD_HEADER_LEN + (
        #[trigger] rows[q]).key.len() + rows[q].value.len() <= cap by {
            assert(row_keys[q][i].len() <= 0xFFFF);
            lemma_reference_len(refs[q]);
        }
        assert(pace::rows_within(rows, cap));
    }
}

/// A reference is of one length.
proof fn lemma_reference_len(r: PageRef)
    ensures
        r.bytes().len() == PAGE_REF_LEN,
{
}

/// Hands a row's index keys to the sorters of the indexes.
fn place_row<S: Scratch>(
    spools: &mut Vec<RecordSpool<S>>,
    keys: &Vec<Vec<u8>>,
    reference: &PageRef,
    budget: usize,
    Ghost(plans): Ghost<Seq<IndexPlan>>,
    Ghost(row_keys): Ghost<Seq<Seq<Seq<u8>>>>,
    Ghost(refs): Ghost<Seq<PageRef>>,
    Ghost(dependable): Ghost<bool>,
) -> (r: Result<(), Error>)
    requires
        spools_fed(old(spools)@, plans, row_keys, refs, dependable),
        refs.len() < row_keys.len(),
        tree::strings(keys@) == row_keys[refs.len() as int],
        keys@.len() == plans.len(),
    ensures
        match r {
            Ok(_) => spools_fed(
                final(spools)@,
                plans,
                row_keys,
                refs.push(*reference),
                dependable,
            ) && balance::held(final(spools)@) <= budget,
            Err(e) => {
                ||| e.kind() == ErrorKind::ValueTooLarge && keys_large(
                    row_keys,
                    plans.len() as int,
                )
                ||| e.kind() == ErrorKind::Io && !dependable
                ||| !e.is_resource() && some_refused(plans, row_keys[refs.len() as int])
            },
        },
{
    let encoded = reference.encode();
    let ghost more = refs.push(*reference);
    let ghost at = refs.len() as int;
    let mut i: usize = 0;
    while i < keys.len()
        invariant
            i <= keys@.len(),
            keys@.len() == plans.len(),
            spools@.len() == plans.len(),
            at == refs.len(),
            at < row_keys.len(),
            more == refs.push(*reference),
            tree::strings(keys@) == row_keys[at],
            encoded@ == reference.bytes(),
            forall|q: int|
                0 <= q < i ==> #[trigger] spool_fed(
                    spools@[q],
                    plans[q],
                    row_keys,
                    more,
                    q,
                    dependable,
                ),
            forall|q: int|
                i <= q < plans.len() ==> #[trigger] spool_fed(
                    spools@[q],
                    plans[q],
                    row_keys,
                    refs,
                    q,
                    dependable,
                ),
        decreases keys@.len() - i,
    {
        let ghost was = spools@;
        proof {
            assert(spool_fed(was[i as int], plans[i as int], row_keys, refs, i as int, dependable));
            assert(tree::strings(keys@)[i as int] == keys@[i as int]@);
        }
        match spools[i].push(keys[i].as_slice(), encoded.as_slice()) {
            Ok(_) => {},
            Err(e) => {
                proof {
                    assert(row_keys[at][i as int] == keys@[i as int]@);
                    if e.kind() == ErrorKind::ValueTooLarge {
                        assert(was[i as int].rows() == records_for(row_keys, refs, i as int));
                        assert(records_for(row_keys, refs, i as int).push(
                            Row { key: keys@[i as int]@, value: encoded@ },
                        ) =~= records_for(row_keys, more, i as int));
                        if pace::overfull(records_for(row_keys, more, i as int)) {
                            lemma_keys_large(row_keys, more, i as int, plans.len() as int);
                        }
                    }
                }
                return Err(e);
            },
        }
        proof {
            assert(spools@[i as int].rows() =~= records_for(row_keys, more, i as int));
            assert forall|q: int| 0 <= q < i + 1 implies #[trigger] spool_fed(
                spools@[q],
                plans[q],
                row_keys,
                more,
                q,
                dependable,
            ) by {
                if q < i {
                    assert(spools@[q] == was[q]);
                    assert(spool_fed(was[q], plans[q], row_keys, more, q, dependable));
                }
            }
            assert forall|q: int| i + 1 <= q < plans.len() implies #[trigger] spool_fed(
                spools@[q],
                plans[q],
                row_keys,
                refs,
                q,
                dependable,
            ) by {
                assert(spools@[q] == was[q]);
                assert(spool_fed(was[q], plans[q], row_keys, refs, q, dependable));
            }
        }
        i += 1;
    }
    let ghost was = spools@;
    proof {
        assert forall|q: int| 0 <= q < was.len() implies (#[trigger] was[q]).wf()
            && was[q].failure() is None && was[q].dependable() == dependable by {
            assert(spool_fed(was[q], plans[q], row_keys, more, q, dependable));
        }
    }
    match keep_inside(spools, budget) {
        Ok(_) => {},
        Err(e) => {
            proof {
                if balance::some_overfull(was) {
                    let q = choose|q: int|
                        0 <= q < was.len() && pace::overfull((#[trigger] was[q]).rows());
                    assert(spool_fed(was[q], plans[q], row_keys, more, q, dependable));
                    lemma_keys_large(row_keys, more, q, plans.len() as int);
                }
            }
            return Err(e);
        },
    }
    proof {
        assert forall|q: int| 0 <= q < plans.len() implies #[trigger] spool_fed(
            spools@[q],
            plans[q],
            row_keys,
            more,
            q,
            dependable,
        ) by {
            assert(spool_fed(was[q], plans[q], row_keys, more, q, dependable));
            assert(balance::same_spool(was[q], spools@[q]));
            assert(was[q].failure() is None);
        }
    }
    Ok(())
}

/// The references of placed rows.
pub open spec fn references(placed: Seq<Placed>) -> Seq<PageRef> {
    Seq::new(placed.len(), |i: int| placed[i].reference)
}

/// Hands the index keys of rows whose page has been written to the sorters of the indexes.
fn place_rows<S: Scratch>(
    spools: &mut Vec<RecordSpool<S>>,
    placed: &Vec<Placed>,
    budget: usize,
    Ghost(plans): Ghost<Seq<IndexPlan>>,
    Ghost(row_keys): Ghost<Seq<Seq<Seq<u8>>>>,
    Ghost(refs): Ghost<Seq<PageRef>>,
    Ghost(dependable): Ghost<bool>,
) -> (r: Result<(), Error>)
    requires
        spools_fed(old(spools)@, plans, row_keys, refs, dependable),
        refs.len() + placed@.len() <= row_keys.len(),
        forall|i: int|
            0 <= i < placed@.len() ==> tree::strings((#[trigger] placed@[i]).keys@)
                == row_keys[refs.len() + i],
        forall|q: int|
            0 <= q < row_keys.len() ==> (#[trigger] row_keys[q]).len() == plans.len(),
    ensures
        match r {
            Ok(_) => spools_fed(
                final(spools)@,
                plans,
                row_keys,
                refs + references(placed@),
                dependable,
            ),
            Err(e) => {
                ||| e.kind() == ErrorKind::ValueTooLarge && keys_large(
                    row_keys,
                    plans.len() as int,
                )
                ||| e.kind() == ErrorKind::Io && !dependable
                ||| !e.is_resource() && exists|q: int|
                    0 <= q < row_keys.len() && some_refused(plans, #[trigger] row_keys[q])
            },
        },
{
    let mut i: usize = 0;
    let ghost mut now = refs;
    proof {
        assert(refs + references(placed@).subrange(0, 0) =~= refs);
    }
    while i < placed.len()
        invariant
            i <= placed@.len(),
            now == refs + references(placed@).subrange(0, i as int),
            spools_fed(spools@, plans, row_keys, now, dependable),
            refs.len() + placed@.len() <= row_keys.len(),
            forall|i: int|
                0 <= i < placed@.len() ==> tree::strings((#[trigger] placed@[i]).keys@)
                    == row_keys[refs.len() + i],
            forall|q: int|
                0 <= q < row_keys.len() ==> (#[trigger] row_keys[q]).len() == plans.len(),
        decreases placed@.len() - i,
    {
        let row = &placed[i];
        proof {
            assert(now.len() == refs.len() + i);
            assert(tree::strings(row.keys@).len() == row.keys@.len());
        }
        match place_row(
            spools,
            &row.keys,
            &row.reference,
            budget,
            Ghost(plans),
            Ghost(row_keys),
            Ghost(now),
            Ghost(dependable),
        ) {
            Ok(_) => {},
            Err(e) => return Err(e),
        }
        i += 1;
        proof {
            let next = refs + references(placed@).subrange(0, i as int);
            assert(now.push(row.reference) =~= next);
            now = next;
        }
    }
    proof {
        assert(references(placed@).subrange(0, i as int) =~= references(placed@));
    }
    Ok(())
}

/// Whether rows have these keys in every index.
pub open spec fn all_keyed(
    plans: Seq<IndexPlan>,
    order: Seq<Entry>,
    row_keys: Seq<Seq<Seq<u8>>>,
) -> bool {
    &&& row_keys.len() == order.len()
    &&& forall|q: int|
        0 <= q < order.len() ==> keyed(
            plans,
            Row { key: order[q].key, value: order[q].value },
            #[trigger] row_keys[q],
        )
}

/// Whether the key of some row is longer than one of a table's indexes can hold.
pub open spec fn keys_unfit(p: PagePlan, t: TablePlan) -> bool {
    exists|i: int, j: int|
        0 <= i < t.rows.len() && 0 <= j < t.indexes.len() && (#[trigger] derived(
            t.indexes[j],
            t.rows[i],
        ) matches Some(k) && room::row_unfit(
            p.page_size,
            tree::layout_for(
                p.page_size,
                p.eytzinger,
                t.indexes[j].encoding,
                t.indexes[j].unique,
            ),
            k.len() + room::key_extra(t.indexes[j].unique),
            PAGE_REF_LEN as int,
        ))
}

/// Whether a table has a row or a key that its trees cannot hold.
pub open spec fn table_unfit(p: PagePlan, t: TablePlan) -> bool {
    room::rows_unfit(p, t.encoding, true, t.rows) || keys_unfit(p, t)
}

/// The most pages that a table takes.
pub open spec fn table_pages(t: TablePlan) -> int {
    (1 + t.indexes.len()) * room::tree_pages(t.rows.len() as int)
}

/// Whether a table has what its trees cannot hold, or may not fit behind the pages there are.
pub open spec fn table_cramped<T: BuildTarget, D: Scratch>(sink: &PageSink<T, D>, p: PagePlan, t: TablePlan) -> bool {
    table_unfit(p, t) || sink.crowded(table_pages(t))
}

/// A table takes the pages of its primary tree and those of its indexes.
pub proof fn lemma_table_pages(t: TablePlan)
    ensures
        table_pages(t) == room::tree_pages(t.rows.len() as int) + t.indexes.len()
            * room::tree_pages(t.rows.len() as int),
        0 <= room::tree_pages(t.rows.len() as int) <= table_pages(t),
{
    let (k, n) = (t.indexes.len() as int, room::tree_pages(t.rows.len() as int));
    assert((1 + k) * n == n + k * n) by (nonlinear_arith);
    assert(k * n >= 0) by (nonlinear_arith)
        requires
            k >= 0,
            n >= 0,
    ;
}

/// Index keys that are large are too large for the table.
proof fn lemma_large_cramped<T: BuildTarget, D: Scratch>(
    sink: &PageSink<T, D>,
    p: PagePlan,
    t: TablePlan,
    order: Seq<Entry>,
    row_keys: Seq<Seq<Seq<u8>>>,
)
    requires
        all_keyed(t.indexes, order, row_keys),
        indexing::all_members(t.rows, order),
        order.len() <= t.rows.len(),
        keys_large(row_keys, t.indexes.len() as int),
    ensures
        table_cramped(sink, p, t),
{
    lemma_table_pages(t);
    if row_keys.len() < 0x8000_0000 {
        let (q, j) = choose|q: int, j: int|
            0 <= q < row_keys.len() && 0 <= j < t.indexes.len() && (
            #[trigger] row_keys[q][j]).len() > 0xFFFF;
        let x = order[q];
        let row = Row { key: x.key, value: x.value };
        assert(keyed(t.indexes, row, row_keys[q]));
        assert(run::member(t.rows, 0, t.rows.len() as int, x));
        assert(t.rows[x.seq as int] == row);
        assert(derived(t.indexes[j], t.rows[x.seq as int]) == Some(row_keys[q][j]));
        assert(keys_unfit(p, t));
    }
}

/// Why the primary tree of a table cannot be built.
pub open spec fn primary_failure(
    t: TablePlan,
    dependable: bool,
    cramped: bool,
    e: Error,
) -> bool {
    ||| room::write_failure(dependable, cramped, e)
    ||| e.kind() == ErrorKind::InvalidArgument && (encoding::lawful(&**t.encoding.inner)
        ==> indexing::has_twins(t.encoding, t.rows))
    ||| key_missing(t)
    ||| !e.is_resource() && key_refused(t)
}

/// A key that an index cannot hold is the key of some row.
proof fn lemma_refused(
    t: TablePlan,
    order: Seq<Entry>,
    row_keys: Seq<Seq<Seq<u8>>>,
    q: int,
)
    requires
        all_keyed(t.indexes, order, row_keys),
        indexing::all_members(t.rows, order),
        0 <= q < row_keys.len(),
        some_refused(t.indexes, row_keys[q]),
    ensures
        key_refused(t),
{
    let j = choose|j: int|
        0 <= j < t.indexes.len() && !((#[trigger] t.indexes[j]).encoding.inner.well_formed(
            row_keys[q][j],
        ) && t.indexes[j].encoding.inner.accepts(row_keys[q][j]));
    let x = order[q];
    let row = Row { key: x.key, value: x.value };
    assert(keyed(t.indexes, row, row_keys[q]));
    assert(run::member(t.rows, 0, t.rows.len() as int, x));
    assert(t.rows[x.seq as int] == row);
    assert(derived(t.indexes[j], t.rows[x.seq as int]) == Some(row_keys[q][j]));
}

/// What writing the primary tree of a table comes to.
pub struct Primary {
    /// The root page.
    pub root: PageOrdinal,
    /// The rows in key order.
    pub order: Ghost<Seq<Entry>>,
    /// The index keys of each row.
    pub row_keys: Ghost<Seq<Seq<Seq<u8>>>>,
    /// Where each row's value is.
    pub refs: Ghost<Seq<PageRef>>,
}

/// Writes the primary tree of a table, and hands every row's index keys to the sorters of
/// its indexes once the row's value has a place.
fn write_primary<T: BuildTarget, D: Scratch, S: Scratch>(
    sink: &mut PageSink<T, D>,
    page_size: usize,
    eytzinger: bool,
    name: &str,
    encoding: &SharedEncoding,
    secondaries: &Vec<SecondarySpec>,
    records: SortedRecords<S>,
    spools: &mut Vec<RecordSpool<S>>,
    index_budget: usize,
    Ghost(t): Ghost<TablePlan>,
) -> (r: Result<Primary, Error>)
    requires
        old(sink).wf(),
        tree::MIN_PAGE_SIZE <= page_size <= 0x7FFF_FFFF,
        records.wf(),
        records.given() == Seq::<Entry>::empty(),
        records.rows() == t.rows,
        records.key_encoding() == t.encoding,
        spool::rows_taken(t.encoding, t.rows),
        *encoding == t.encoding,
        t.indexes == plan::index_plans(secondaries@),
        spools_fed(old(spools)@, t.indexes, Seq::empty(), Seq::empty(), records.dependable()),
    ensures
        final(sink).dependable() == old(sink).dependable(),
        final(sink).filter() == old(sink).filter(),
        match r {
            Ok(done) => {
                &&& tree::sink_grew(old(sink), final(sink), old(sink).pages().len() as int)
                &&& done.root.get() < 0x8000_0000
                &&& sink::within(
                    old(sink),
                    final(sink),
                    room::tree_pages(t.rows.len() as int),
                )
                &&& run::sorted_run(t.encoding, t.rows, 0, t.rows.len() as int, done.order@)
                &&& encoding::lawful(&**t.encoding.inner) ==> model::holds_packed(
                    plan::rows_of(done.order@),
                    t.encoding,
                    tree::layout_for(page_size as int, eytzinger, t.encoding, true),
                    model::page_map(final(sink).pages()),
                    done.root,
                    page_size as int,
                )
                &&& all_keyed(t.indexes, done.order@, done.row_keys@)
                &&& plan::refs_ok(
                    plan::TreePlace {
                        encoding: t.encoding,
                        layout: tree::layout_for(
                            page_size as int,
                            eytzinger,
                            t.encoding,
                            true,
                        ),
                        root: done.root,
                    },
                    final(sink).pages(),
                    done.order@,
                    done.refs@,
                )
                &&& spools_fed(
                    final(spools)@,
                    t.indexes,
                    done.row_keys@,
                    done.refs@,
                    records.dependable(),
                )
            },
            Err(e) => primary_failure(
                t,
                old(sink).dependable() && records.dependable(),
                table_cramped(
                    old(sink),
                    PagePlan { page_size: page_size as int, eytzinger },
                    t,
                ),
                e,
            ),
        },
{
    let ghost e = t.encoding;
    let ghost rows = t.rows;
    let ghost start = sink.pages().len() as int;
    let ghost first = *sink;
    let ghost whole = records.dependable();
    let ghost plans = t.indexes;
    let ghost p = PagePlan { page_size: page_size as int, eytzinger };
    let ghost unfit = room::rows_unfit(p, e, true, rows);
    let mut sorted = records;
    let mut writer = match TreeWriter::new(sink, page_size, eytzinger, encoding.clone(), true) {
        Ok(writer) => writer,
        Err(e) => return Err(e),
    };
    let ghost layout = writer.page_layout();
    // Half of what is left for the index keys waiting for the leaf page they belong to,
    // half for the sorters they are handed to once it is written.
    let spool_budget = index_budget - index_budget / 2;
    if secondaries.len() > 0 {
        writer.limit_pending_extra(sink, index_budget / 2);
    }
    let mut previous: Option<Vec<u8>> = None;
    let ghost mut refs = Seq::<PageRef>::empty();
    proof {
        assert(writer.rows() =~= plan::rows_of(sorted.given()));
        assert(writer.row_keys() =~= Seq::<Seq<Seq<u8>>>::empty());
    }
    loop
        invariant
            first == *old(sink),
            e == t.encoding,
            *encoding == e,
            rows == t.rows,
            plans == t.indexes,
            plans == plan::index_plans(secondaries@),
            whole == records.dependable(),
            start == first.pages().len(),
            sorted.wf(),
            sorted.rows() == rows,
            sorted.key_encoding() == e,
            sorted.dependable() == whole,
            spool::rows_taken(e, rows),
            indexing::all_members(rows, sorted.given()),
            writer.wf(sink),
            writer.key_encoding() == e,
            writer.page_layout() == layout,
            writer.first_page() == start,
            writer.size_of_page() == page_size,
            p == (PagePlan { page_size: page_size as int, eytzinger }),
            layout == tree::layout_for(p.page_size, p.eytzinger, e, true),
            unfit == room::rows_unfit(p, e, true, rows),
            unfit || writer.fair(),
            sink::within(&first, sink, tree::PUSH_PAGES * sorted.given().len()),
            sorted.given().len() <= rows.len(),
            writer.rows() == plan::rows_of(sorted.given()),
            writer.waiting() == Seq::<Placed>::empty(),
            writer.written_rows() == refs.len(),
            refs.len() <= sorted.given().len(),
            all_keyed(plans, sorted.given(), writer.row_keys()),
            refs_placed(sink.pages(), sorted.given(), refs),
            refs_located(&writer, refs),
            spools_fed(spools@, plans, writer.row_keys(), refs, whole),
            tree::sink_grew(&first, sink, start),
            sink.dependable() == first.dependable(),
            sink.filter() == first.filter(),
            match previous {
                None => sorted.given().len() == 0,
                Some(k) => sorted.given().len() > 0 && k@ == sorted.given().last().key,
            },
        ensures
            run::sorted_run(e, rows, 0, rows.len() as int, sorted.given()),
        decreases rows.len() - sorted.given().len(),
    {
        let ghost before = sorted.given();
        let ghost keys0 = writer.row_keys();
        let ghost sink0 = *sink;
        let ghost writer0 = writer;
        proof {
            sorted.lemma_given_len();
        }
        let record = match sorted.next_record() {
            Ok(Some(record)) => record,
            Ok(None) => break,
            Err(e) => return Err(e),
        };
        let ghost row = Row { key: record.key@, value: record.value@ };
        proof {
            sorted.lemma_given_len();
            assert(sorted.given().last() == record@);
            assert(indexing::all_members(rows, sorted.given()));
            assert(rows[record@.seq as int] == row);
        }
        if let Some(last) = &previous {
            match encoding.order(last.as_slice(), record.key.as_slice()) {
                Ok(KeyOrder::Less) => {},
                Ok(_) => {
                    proof {
                        if encoding::lawful(&**e.inner) {
                            assert(sorted.given()[sorted.given().len() - 2] == before.last());
                            indexing::lemma_twins(e, rows, sorted.given());
                        }
                    }
                    let key = encoding.inner.format_key(record.key.as_slice());
                    return Err(
                        Error::invalid_words(
                            Words::new("table `")
                                .say(name)
                                .say("` was given the same primary key twice: ")
                                .say(key.as_str()),
                        ),
                    );
                },
                Err(e) => return Err(e),
            }
        }
        let index_keys = match derive_keys(
            secondaries,
            record.key.as_slice(),
            record.value.as_slice(),
        ) {
            Ok(index_keys) => index_keys,
            Err(e) => {
                proof {
                    let j = choose|j: int|
                        0 <= j < secondaries@.len() && #[trigger] derived(plans[j], row) is None;
                    assert(derived(t.indexes[j], t.rows[record@.seq as int]) is None);
                }
                return Err(e);
            },
        };
        let ghost these = tree::strings(index_keys@);
        proof {
            if writer.rows().len() > 0 {
                assert(writer.rows().last().key == before.last().key);
            }
        }
        proof {
            indexing::lemma_row_fits(p, e, true, rows, record@);
            lemma_table_pages(t);
        }
        match writer.push(sink, record.key.as_slice(), record.value.as_slice(), index_keys) {
            Ok(_) => {},
            Err(e) => return Err(e),
        }
        let ghost row_keys = writer.row_keys();
        proof {
            assert(writer.rows() =~= plan::rows_of(sorted.given()));
            lemma_keyed_push(plans, before, record@, keys0, these);
            lemma_fed_more(spools@, plans, keys0, row_keys, refs, whole);
            lemma_refs_kept(&sink0, sink, start, before, refs);
            tree::lemma_grew_twice(&first, &sink0, sink, start);
        }
        let ghost pushed = writer;
        proof {
            assert(refs_located(&pushed, refs)) by {
                assert forall|q: int| 0 <= q < refs.len() implies pushed.located(
                    q,
                    #[trigger] refs[q],
                ) by {
                    assert(writer0.located(q, refs[q]));
                }
            }
        }
        let placed = writer.take_placed(sink);
        match place_rows(
            spools,
            &placed,
            spool_budget,
            Ghost(plans),
            Ghost(row_keys),
            Ghost(refs),
            Ghost(whole),
        ) {
            Ok(_) => {},
            Err(e) => {
                proof {
                    if e.kind() == ErrorKind::ValueTooLarge && keys_large(
                        row_keys,
                        plans.len() as int,
                    ) {
                        lemma_large_cramped(&first, p, t, sorted.given(), row_keys);
                    } else if !(e.kind() == ErrorKind::Io && !whole) {
                        let q = choose|q: int|
                            0 <= q < row_keys.len() && some_refused(plans, #[trigger] row_keys[q]);
                        lemma_refused(t, sorted.given(), row_keys, q);
                    }
                }
                return Err(e);
            },
        }
        proof {
            lemma_refs_more(sink.pages(), sorted.given(), refs, before, placed@, writer.rows());
            lemma_located_more(&pushed, &writer, refs, placed@);
            refs = refs + references(placed@);
        }
        previous = Some(record.key);
    }
    let ghost order = sorted.given();
    let ghost sink1 = *sink;
    let ghost row_keys = writer.row_keys();
    let ghost final_writer = writer;
    proof {
        lemma_table_pages(t);
    }
    let (root, placed) = match writer.finish(sink) {
        Ok(done) => done,
        Err(e) => return Err(e),
    };
    proof {
        lemma_refs_kept(&sink1, sink, start, order, refs);
        tree::lemma_grew_twice(&first, &sink1, sink, start);
    }
    match place_rows(
        spools,
        &placed,
        spool_budget,
        Ghost(plans),
        Ghost(row_keys),
        Ghost(refs),
        Ghost(whole),
    ) {
        Ok(_) => {},
        Err(e) => {
            proof {
                if e.kind() == ErrorKind::ValueTooLarge && keys_large(
                    row_keys,
                    plans.len() as int,
                ) {
                    lemma_large_cramped(&first, p, t, order, row_keys);
                } else if !(e.kind() == ErrorKind::Io && !whole) {
                    let q = choose|q: int|
                        0 <= q < row_keys.len() && some_refused(plans, #[trigger] row_keys[q]);
                    lemma_refused(t, order, row_keys, q);
                }
            }
            return Err(e);
        },
    }
    let ghost all = refs + references(placed@);
    proof {
        lemma_refs_more(sink.pages(), order, refs, order, placed@, final_writer.rows());
        if encoding::lawful(&**e.inner) {
            let s = choose|s: model::TreeShape|
                #[trigger] final_writer.tree_of(s, sink.pages(), root) && tree::refs_in(
                    s,
                    sink.pages(),
                    placed@,
                );
            final_writer.lemma_held(sink.pages(), root, placed@);
            assert forall|q: int| 0 <= q < all.len() implies model::row_ref(
                s,
                model::page_map(sink.pages()),
                q,
                #[trigger] all[q],
            ) by {
                if q < refs.len() {
                    assert(all[q] == refs[q]);
                    assert(final_writer.located(q, refs[q]));
                } else {
                    assert(all[q] == placed@[q - refs.len()].reference);
                    assert(placed@[q - refs.len()].row@ == q);
                }
            }
            assert(plan::refs_in(s, sink.pages(), all));
            let h = plan::TreePlace { encoding: e, layout, root };
            assert(final_writer.tree_of(s, sink.pages(), root));
            assert(s.rows == plan::rows_of(order));
            assert(model::tree_ok(
                s,
                h.encoding,
                h.layout,
                model::page_map(sink.pages()),
                h.root,
            ));
            assert(plan::tree_refs(h, sink.pages(), plan::rows_of(order), all));
        }
    }
    Ok(Primary { root, order: Ghost(order), row_keys: Ghost(row_keys), refs: Ghost(all) })
}

/// Whether references designate the values of the first rows.
pub open spec fn refs_placed(pages: Seq<Seq<u8>>, order: Seq<Entry>, refs: Seq<PageRef>) -> bool {
    &&& refs.len() <= order.len()
    &&& forall|i: int|
        0 <= i < refs.len() ==> level::refers_to(pages, #[trigger] refs[i], order[i].value)
}

/// Whether references are those to the values of the first rows, on pages that a writer has
/// written.
pub open spec fn refs_located(w: &TreeWriter, refs: Seq<PageRef>) -> bool {
    forall|q: int| 0 <= q < refs.len() ==> w.located(q, #[trigger] refs[q])
}

/// The references of rows that were just placed are located.
proof fn lemma_located_more(
    was: &TreeWriter,
    now: &TreeWriter,
    refs: Seq<PageRef>,
    placed: Seq<Placed>,
)
    requires
        refs_located(was, refs),
        TreeWriter::kept_located(was, now),
        forall|i: int|
            0 <= i < placed.len() ==> (#[trigger] placed[i]).row@ == refs.len() + i
                && now.located(placed[i].row@, placed[i].reference),
    ensures
        refs_located(now, refs + references(placed)),
{
    let all = refs + references(placed);
    assert forall|q: int| 0 <= q < all.len() implies now.located(q, #[trigger] all[q]) by {
        if q < refs.len() {
            assert(all[q] == refs[q]);
            assert(was.located(q, refs[q]));
        } else {
            let i = q - refs.len();
            assert(all[q] == placed[i].reference);
            assert(placed[i].row@ == q);
        }
    }
}

/// References designate the same values when the file grows.
proof fn lemma_refs_kept<T: BuildTarget, D: Scratch>(
    a: &PageSink<T, D>,
    b: &PageSink<T, D>,
    start: int,
    order: Seq<Entry>,
    refs: Seq<PageRef>,
)
    requires
        tree::sink_grew(a, b, start),
        refs_placed(a.pages(), order, refs),
    ensures
        refs_placed(b.pages(), order, refs),
{
    assert forall|i: int| 0 <= i < refs.len() implies level::refers_to(
        b.pages(),
        #[trigger] refs[i],
        order[i].value,
    ) by {
        assert(level::refers_to(a.pages(), refs[i], order[i].value));
    }
}

/// One more row with its index keys.
proof fn lemma_keyed_push(
    plans: Seq<IndexPlan>,
    order: Seq<Entry>,
    x: Entry,
    row_keys: Seq<Seq<Seq<u8>>>,
    keys: Seq<Seq<u8>>,
)
    requires
        all_keyed(plans, order, row_keys),
        keyed(plans, Row { key: x.key, value: x.value }, keys),
    ensures
        all_keyed(plans, order.push(x), row_keys.push(keys)),
{
    let o = order.push(x);
    let k = row_keys.push(keys);
    assert forall|q: int| 0 <= q < o.len() implies keyed(
        plans,
        Row { key: o[q].key, value: o[q].value },
        #[trigger] k[q],
    ) by {
        if q < order.len() {
            assert(keyed(plans, Row { key: order[q].key, value: order[q].value }, row_keys[q]));
        }
    }
}

/// What sorters were fed does not depend on the keys of later rows.
proof fn lemma_fed_more<S: Scratch>(
    spools: Seq<RecordSpool<S>>,
    plans: Seq<IndexPlan>,
    a: Seq<Seq<Seq<u8>>>,
    b: Seq<Seq<Seq<u8>>>,
    refs: Seq<PageRef>,
    dependable: bool,
)
    requires
        spools_fed(spools, plans, a, refs, dependable),
        refs.len() <= a.len(),
        a.len() <= b.len(),
        forall|q: int| 0 <= q < a.len() ==> #[trigger] b[q] == a[q],
    ensures
        spools_fed(spools, plans, b, refs, dependable),
{
    assert forall|i: int| 0 <= i < spools.len() implies #[trigger] spool_fed(
        spools[i],
        plans[i],
        b,
        refs,
        i,
        dependable,
    ) by {
        assert(spool_fed(spools[i], plans[i], a, refs, i, dependable));
        assert(records_for(b, refs, i) =~= records_for(a, refs, i));
    }
}

/// The references of rows that were just placed.
proof fn lemma_refs_more(
    pages: Seq<Seq<u8>>,
    order: Seq<Entry>,
    refs: Seq<PageRef>,
    before: Seq<Entry>,
    placed: Seq<Placed>,
    rows: Seq<Row>,
)
    requires
        refs_placed(pages, before, refs),
        before.len() <= order.len(),
        forall|i: int| 0 <= i < before.len() ==> #[trigger] order[i] == before[i],
        rows == plan::rows_of(order),
        refs.len() + placed.len() <= order.len(),
        forall|i: int|
            0 <= i < placed.len() ==> level::refers_to(
                pages,
                (#[trigger] placed[i]).reference,
                rows[refs.len() + i].value,
            ),
    ensures
        refs_placed(pages, order, refs + references(placed)),
{
    let all = refs + references(placed);
    assert forall|i: int| 0 <= i < all.len() implies level::refers_to(
        pages,
        #[trigger] all[i],
        order[i].value,
    ) by {
        if i < refs.len() {
            assert(all[i] == refs[i]);
            assert(order[i] == before[i]);
        } else {
            assert(all[i] == placed[i - refs.len()].reference);
            assert(rows[refs.len() + (i - refs.len())].value == order[i].value);
        }
    }
}

/// Whether the first pages stay as they are.
pub open spec fn pages_extended(a: Seq<Seq<u8>>, b: Seq<Seq<u8>>) -> bool {
    &&& a.len() <= b.len()
    &&& forall|i: int| 0 <= i < a.len() ==> #[trigger] b[i] == a[i]
}

/// A tree stays where it is when pages are written after its own.
pub proof fn lemma_holds_kept(
    rows: Seq<Row>,
    e: SharedEncoding,
    layout: crate::format::node::NodeLayout,
    a: Seq<Seq<u8>>,
    b: Seq<Seq<u8>>,
    root: PageOrdinal,
)
    requires
        model::holds_rows(rows, e, layout, model::page_map(a), root),
        pages_extended(a, b),
    ensures
        model::holds_rows(rows, e, layout, model::page_map(b), root),
{
    let s = choose|s: model::TreeShape|
        s.rows == rows && s.levels.len() <= model::MAX_LEVELS && #[trigger] model::tree_ok(
            s,
            e,
            layout,
            model::page_map(a),
            root,
        );
    model::lemma_tree_kept(s, e, layout, a, b, root);
}

/// A primary tree stays what it is.
proof fn lemma_primary_kept(
    p: PagePlan,
    t: TablePlan,
    m: catalog::IndexModel,
    a: Seq<Seq<u8>>,
    b: Seq<Seq<u8>>,
    order: Seq<Entry>,
)
    requires
        plan::primary_built(p, t, m, a, order),
        pages_extended(a, b),
    ensures
        plan::primary_built(p, t, m, b, order),
{
    if encoding::lawful(&**t.encoding.inner) {
        let layout = tree::layout_for(p.page_size, p.eytzinger, t.encoding, true);
        let (ma, mb) = (model::page_map(a), model::page_map(b));
        let root = m.root->Some_0;
        let s = choose|s: model::TreeShape|
            s.rows == plan::rows_of(order) && s.levels.len() <= model::MAX_LEVELS
                && #[trigger] model::tree_ok(s, t.encoding, layout, ma, root) && model::packed(
                s,
                layout,
                ma,
                p.page_size,
            );
        model::lemma_tree_kept(s, t.encoding, layout, a, b, root);
        assert forall|o: PageOrdinal| #[trigger] ma.contains_key(o) implies mb.contains_key(o)
            && mb[o] == ma[o] by {
            assert(b[o.get() as int] == a[o.get() as int]);
        }
        model::lemma_packed_kept(s, t.encoding, layout, ma, mb, root, p.page_size);
    }
}

/// The tree of an index stays what it is.
proof fn lemma_index_holds_kept(
    p: PagePlan,
    unique: bool,
    source: SharedEncoding,
    l: Seq<Entry>,
    a: Seq<Seq<u8>>,
    b: Seq<Seq<u8>>,
    root: PageOrdinal,
)
    requires
        plan::index_holds(p, unique, source, l, a, root),
        pages_extended(a, b),
    ensures
        plan::index_holds(p, unique, source, l, b, root),
{
    if encoding::lawful(&**source.inner) {
        let rows = plan::index_rows(unique, source, l);
        let e = choose|e: SharedEncoding|
            #[trigger] crate::index::tree_encoding(unique, source, e) && model::holds_rows(
                rows,
                e,
                tree::layout_for(p.page_size, p.eytzinger, e, unique),
                model::page_map(a),
                root,
            );
        lemma_holds_kept(
            rows,
            e,
            tree::layout_for(p.page_size, p.eytzinger, e, unique),
            a,
            b,
            root,
        );
    }
}

/// References designate the same values.
proof fn lemma_refs_extended(
    h: plan::TreePlace,
    a: Seq<Seq<u8>>,
    b: Seq<Seq<u8>>,
    order: Seq<Entry>,
    refs: Seq<PageRef>,
)
    requires
        plan::refs_ok(h, a, order, refs),
        pages_extended(a, b),
    ensures
        plan::refs_ok(h, b, order, refs),
{
    assert forall|i: int| 0 <= i < order.len() implies level::refers_to(
        b,
        #[trigger] refs[i],
        order[i].value,
    ) by {
        assert(level::refers_to(a, refs[i], order[i].value));
        assert(b[refs[i].page.get() as int] == a[refs[i].page.get() as int]);
    }
    if encoding::lawful(&**h.encoding.inner) {
        let (ma, mb) = (model::page_map(a), model::page_map(b));
        let s = choose|s: model::TreeShape|
            s.rows == plan::rows_of(order) && s.levels.len() <= model::MAX_LEVELS
                && #[trigger] model::tree_ok(s, h.encoding, h.layout, ma, h.root) && plan::refs_in(
                s,
                a,
                refs,
            );
        model::lemma_tree_kept(s, h.encoding, h.layout, a, b, h.root);
        assert forall|o: PageOrdinal|
            #[trigger] ma.contains_key(o) && crate::format::node::page_ok(ma[o])
                && crate::format::node::entries_ok(ma[o]) implies mb.contains_key(o) && mb[o]
            == ma[o] by {
            assert(b[o.get() as int] == a[o.get() as int]);
        }
        assert forall|q: int| 0 <= q < refs.len() implies model::row_ref(
            s,
            mb,
            q,
            #[trigger] refs[q],
        ) by {
            let j = choose|j: int|
                0 <= j < s.levels[0].len() && #[trigger] model::ref_at(s, ma, q, refs[q], j);
            model::lemma_ref_kept(s, h.encoding, h.layout, ma, mb, h.root, q, refs[q], j);
        }
    }
}

/// An index stays what it is.
proof fn lemma_index_kept(
    p: PagePlan,
    h: plan::TreePlace,
    ix: IndexPlan,
    m: catalog::IndexModel,
    a: Seq<Seq<u8>>,
    b: Seq<Seq<u8>>,
    order: Seq<Entry>,
)
    requires
        plan::index_built(p, h, ix, m, a, order),
        pages_extended(a, b),
    ensures
        plan::index_built(p, h, ix, m, b, order),
{
    let (refs, l) = choose|refs: Seq<PageRef>, l: Seq<Entry>|
        {
            &&& #[trigger] plan::refs_ok(h, a, order, refs)
            &&& #[trigger] run::sorted_run(
                ix.encoding,
                plan::index_records(ix, order, refs),
                0,
                order.len() as int,
                l,
            )
            &&& plan::index_holds(p, ix.unique, ix.encoding, l, a, m.root->Some_0)
        };
    lemma_refs_extended(h, a, b, order, refs);
    lemma_index_holds_kept(p, ix.unique, ix.encoding, l, a, b, m.root->Some_0);
}

/// A table stays what it is when pages are written after its own.
pub proof fn lemma_table_kept(
    p: PagePlan,
    t: TablePlan,
    m: TableModel,
    a: Seq<Seq<u8>>,
    b: Seq<Seq<u8>>,
)
    requires
        plan::table_built(p, t, m, a),
        pages_extended(a, b),
    ensures
        plan::table_built(p, t, m, b),
{
    let order = choose|order: Seq<Entry>| #[trigger] plan::table_holds(p, t, m, a, order);
    let h = plan::primary_tree(p, t, m.primary);
    lemma_primary_kept(p, t, m.primary, a, b, order);
    assert forall|j: int| 0 <= j < t.indexes.len() implies #[trigger] plan::index_built(
        p,
        h,
        t.indexes[j],
        m.secondaries[j],
        b,
        order,
    ) by {
        lemma_index_kept(p, h, t.indexes[j], m.secondaries[j], a, b, order);
    }
    assert(plan::table_holds(p, t, m, b, order));
}

/// Whether two rows of a table have the same key in one of its indexes.
pub open spec fn key_twice(t: TablePlan, j: int) -> bool {
    exists|a: int, b: int|
        0 <= a < t.rows.len() && 0 <= b < t.rows.len() && a != b && (#[trigger] derived(
            t.indexes[j],
            t.rows[a],
        ) matches Some(x) && (#[trigger] derived(t.indexes[j], t.rows[b]) matches Some(y)
            && t.indexes[j].encoding.inner.sign(x, y) == 0))
}

/// Whether a unique index of a table was given a key twice.
pub open spec fn index_refused(t: TablePlan, j: int) -> bool {
    &&& 0 <= j < t.indexes.len()
    &&& encoding::lawful(&**t.encoding.inner) && encoding::lawful(
        &**t.indexes[j].encoding.inner,
    ) ==> t.indexes[j].unique && key_twice(t, j)
}

/// Whether the key of some row cannot be stored with a record id.
pub open spec fn key_unfit(t: TablePlan) -> bool {
    exists|i: int, j: int|
        0 <= i < t.rows.len() && 0 <= j < t.indexes.len() && (#[trigger] derived(
            t.indexes[j],
            t.rows[i],
        ) matches Some(k) && unfit(t.indexes[j].encoding, k))
}

/// Whether a key cannot be stored with a record id.
pub open spec fn unfit(source: SharedEncoding, k: Seq<u8>) -> bool {
    exists|rid: int|
        !(crate::encoding::duplicate::DuplicateKeyEncoding { source }).well_formed(
            #[trigger] crate::encoding::duplicate::composite(k, rid),
        )
}

/// Why a table cannot be built.
pub open spec fn table_failure(
    t: TablePlan,
    failed: Option<ErrorKind>,
    dependable: bool,
    cramped: bool,
    e: Error,
) -> bool {
    ||| failed == Some(e.kind())
    ||| primary_failure(t, dependable, cramped, e)
    ||| e.kind() == ErrorKind::InvalidArgument && exists|j: int| #[trigger] index_refused(t, j)
    ||| key_unfit(t)
}

/// Why the tree of an index cannot be built, in terms of the table.
proof fn lemma_index_failure<T: BuildTarget, D: Scratch, S: Scratch>(
    p: PagePlan,
    t: TablePlan,
    order: Seq<Entry>,
    row_keys: Seq<Seq<Seq<u8>>>,
    refs: Seq<PageRef>,
    spool: &RecordSpool<S>,
    j: int,
    sink: &PageSink<T, D>,
    whole: bool,
    e: Error,
)
    requires
        run::sorted_run(t.encoding, t.rows, 0, t.rows.len() as int, order),
        spool::rows_taken(t.encoding, t.rows),
        all_keyed(t.indexes, order, row_keys),
        refs.len() == order.len(),
        0 <= j < t.indexes.len(),
        spool_fed(*spool, t.indexes[j], row_keys, refs, j, whole),
        indexing::index_failure(p, t.indexes[j], spool, sink, e),
    ensures
        table_failure(
            t,
            None,
            sink.dependable() && whole,
            keys_unfit(p, t) || sink.crowded(room::tree_pages(t.rows.len() as int)),
            e,
        ),
{
    let ix = t.indexes[j];
    let recs = records_for(row_keys, refs, j);
    assert forall|q: int| 0 <= q < order.len() implies #[trigger] derived(
        ix,
        t.rows[order[q].seq as int],
    ) == Some(recs[q].key) && 0 <= order[q].seq < t.rows.len() by {
        assert(run::member(t.rows, 0, t.rows.len() as int, order[q]));
        let row = Row { key: order[q].key, value: order[q].value };
        assert(keyed(t.indexes, row, row_keys[q]));
        assert(derived(t.indexes[j], row) == Some(row_keys[q][j]));
        assert(t.rows[order[q].seq as int] == row);
    }
    if room::write_failure(
        sink.dependable() && spool.dependable(),
        room::cramped(sink, p, ix.encoding, ix.unique, recs),
        e,
    ) {
        let layout = tree::layout_for(p.page_size, p.eytzinger, ix.encoding, ix.unique);
        if room::rows_unfit(p, ix.encoding, ix.unique, recs) {
            let q = choose|q: int|
                0 <= q < recs.len() && room::row_unfit(
                    p.page_size,
                    layout,
                    (#[trigger] recs[q]).key.len() + room::key_extra(ix.unique),
                    recs[q].value.len() as int,
                );
            lemma_reference_len(refs[q]);
            assert(derived(t.indexes[j], t.rows[order[q].seq as int]) == Some(recs[q].key));
            assert(keys_unfit(p, t));
        }
    } else if !ix.unique && indexing::unstorable(ix.encoding, recs) {
        let (q, rid) = choose|q: int, rid: int|
            0 <= q < recs.len() && !(crate::encoding::duplicate::DuplicateKeyEncoding {
                source: ix.encoding,
            }).well_formed(#[trigger] crate::encoding::duplicate::composite(recs[q].key, rid));
        assert(unfit(ix.encoding, recs[q].key));
        assert(derived(t.indexes[j], t.rows[order[q].seq as int]) == Some(recs[q].key));
        assert(key_unfit(t));
    } else {
        if encoding::lawful(&**t.encoding.inner) && encoding::lawful(&**ix.encoding.inner) {
            let (x, y) = choose|x: int, y: int|
                0 <= x < recs.len() && 0 <= y < recs.len() && x != y && ix.encoding.inner.sign(
                    (#[trigger] recs[x]).key,
                    (#[trigger] recs[y]).key,
                ) == 0;
            let (a, b) = (order[x].seq as int, order[y].seq as int);
            assert(run::member(t.rows, 0, t.rows.len() as int, order[x]));
            assert(run::member(t.rows, 0, t.rows.len() as int, order[y]));
            assert(a != b) by {
                if x < y {
                    assert(run::entry_before(t.encoding, order[x], order[y]));
                } else {
                    assert(run::entry_before(t.encoding, order[y], order[x]));
                }
                assert(t.encoding.inner.accepts(t.rows[a].key));
                assert(t.encoding.inner.sign(t.rows[a].key, t.rows[a].key) == 0);
            }
            assert(derived(ix, t.rows[a]) == Some(recs[x].key));
            assert(derived(ix, t.rows[b]) == Some(recs[y].key));
            assert(key_twice(t, j));
        }
        assert(index_refused(t, j));
    }
}

/// Whether everything but the trees of table `i` is as it was.
pub open spec fn others_same(a: Seq<TableModel>, b: Seq<TableModel>, i: int) -> bool {
    &&& a.len() == b.len()
    &&& forall|k: int| 0 <= k < a.len() && k != i ==> #[trigger] b[k] == a[k]
}

/// Builds the trees of a table's indexes from the records their sorters hold.
fn write_indexes<T: BuildTarget, D: Scratch, S: Scratch>(
    sink: &mut PageSink<T, D>,
    page_size: usize,
    eytzinger: bool,
    name: &str,
    secondaries: &Vec<SecondarySpec>,
    spools: Vec<RecordSpool<S>>,
    roots: &TableRoots,
    Ghost(t): Ghost<TablePlan>,
    Ghost(i): Ghost<int>,
    Ghost(models): Ghost<Seq<TableModel>>,
    Ghost(done): Ghost<Primary>,
    Ghost(whole): Ghost<bool>,
) -> (r: Result<(Vec<IndexReport>, Ghost<Seq<TableModel>>), Error>)
    requires
        old(sink).wf(),
        tree::MIN_PAGE_SIZE <= page_size <= 0x7FFF_FFFF,
        t.indexes == plan::index_plans(secondaries@),
        0 <= i < models.len(),
        plan::described(models[i], t),
        describe::roots_match(*roots, models[i]),
        describe::front_written(
            old(sink).file(),
            old(sink).base(),
            page_size as int,
            old(sink).filter(),
            models,
        ),
        spool::rows_taken(t.encoding, t.rows),
        plan::primary_built(
            PagePlan { page_size: page_size as int, eytzinger },
            t,
            models[i].primary,
            old(sink).pages(),
            done.order@,
        ),
        all_keyed(t.indexes, done.order@, done.row_keys@),
        plan::refs_ok(
            plan::primary_tree(
                PagePlan { page_size: page_size as int, eytzinger },
                t,
                models[i].primary,
            ),
            old(sink).pages(),
            done.order@,
            done.refs@,
        ),
        spools_fed(spools@, t.indexes, done.row_keys@, done.refs@, whole),
    ensures
        final(sink).dependable() == old(sink).dependable(),
        final(sink).filter() == old(sink).filter(),
        match r {
            Ok((reports, now)) => {
                &&& final(sink).wf()
                &&& final(sink).base() == old(sink).base()
                &&& pages_extended(old(sink).pages(), final(sink).pages())
                &&& sink::within(
                    old(sink),
                    final(sink),
                    t.indexes.len() * room::tree_pages(t.rows.len() as int),
                )
                &&& reports@.len() == t.indexes.len()
                &&& report::indexes_reported(reports@, t)
                &&& others_same(models, now@, i)
                &&& plan::table_built(
                    PagePlan { page_size: page_size as int, eytzinger },
                    t,
                    now@[i],
                    final(sink).pages(),
                )
                &&& describe::front_written(
                    final(sink).file(),
                    final(sink).base(),
                    page_size as int,
                    final(sink).filter(),
                    now@,
                )
            },
            Err(e) => table_failure(
                t,
                None,
                old(sink).dependable() && whole,
                keys_unfit(PagePlan { page_size: page_size as int, eytzinger }, t)
                    || old(sink).crowded(
                    t.indexes.len() * room::tree_pages(t.rows.len() as int),
                ),
                e,
            ),
        },
{
    let ghost p = PagePlan { page_size: page_size as int, eytzinger };
    let ghost h = plan::primary_tree(p, t, models[i].primary);
    let ghost first = *sink;
    let ghost all = spools@;
    let ghost order = done.order@;
    let ghost row_keys = done.row_keys@;
    let ghost refs = done.refs@;
    let ghost mut now = models;
    let ghost each = room::tree_pages(t.rows.len() as int);
    assert(0 * each == 0);
    let mut spools = spools;
    let mut reports: Vec<IndexReport> = Vec::new();
    let mut j: usize = 0;
    while j < secondaries.len()
        invariant
            j <= secondaries@.len(),
            p == (PagePlan { page_size: page_size as int, eytzinger }),
            first == *old(sink),
            h == plan::primary_tree(p, t, now[i].primary),
            tree::MIN_PAGE_SIZE <= page_size <= 0x7FFF_FFFF,
            t.indexes == plan::index_plans(secondaries@),
            0 <= i < models.len(),
            others_same(models, now, i),
            plan::described(now[i], t),
            describe::roots_match(*roots, now[i]),
            sink.wf(),
            sink.dependable() == first.dependable(),
            sink.filter() == first.filter(),
            sink.base() == first.base(),
            pages_extended(first.pages(), sink.pages()),
            each == room::tree_pages(t.rows.len() as int),
            sink::within(&first, sink, j * each),
            describe::front_written(
                sink.file(),
                sink.base(),
                page_size as int,
                sink.filter(),
                now,
            ),
            spool::rows_taken(t.encoding, t.rows),
            order == done.order@,
            row_keys == done.row_keys@,
            refs == done.refs@,
            plan::primary_built(p, t, now[i].primary, sink.pages(), order),
            all_keyed(t.indexes, order, row_keys),
            plan::refs_ok(h, sink.pages(), order, refs),
            spools_fed(all, t.indexes, row_keys, refs, whole),
            spools@ == all.subrange(j as int, all.len() as int),
            reports@.len() == j,
            report::indexes_reported(reports@, t),
            forall|q: int|
                0 <= q < j ==> #[trigger] plan::index_built(
                    p,
                    h,
                    t.indexes[q],
                    now[i].secondaries[q],
                    sink.pages(),
                    order,
                ),
        decreases secondaries@.len() - j,
    {
        let ghost sink0 = *sink;
        let ghost was = now;
        proof {
            let (k, done) = (t.indexes.len() as int, j as int);
            assert((done + 1) * each == done * each + each) by (nonlinear_arith);
            assert((done + 1) * each <= k * each) by (nonlinear_arith)
                requires
                    done + 1 <= k,
                    each >= 0,
            ;
            assert(spool_fed(all[j as int], t.indexes[j as int], row_keys, refs, j as int, whole));
        }
        let spool = spools.remove(0);
        let index = &secondaries[j];
        let ghost ix = t.indexes[j as int];
        proof {
            assert(ix == index@);
        }
        let entries = spool.len();
        let root = match build_index_tree(sink, page_size, eytzinger, name, index, spool) {
            Ok(root) => root,
            Err(e) => {
                proof {
                    lemma_index_failure(
                        p,
                        t,
                        order,
                        row_keys,
                        refs,
                        &spool,
                        j as int,
                        &sink0,
                        whole,
                        e,
                    );
                }
                return Err(e);
            },
        };
        let ghost l = choose|l: Seq<Entry>|
            #[trigger] run::sorted_run(
                index.encoding,
                spool.rows(),
                0,
                spool.rows().len() as int,
                l,
            ) && plan::index_holds(p, index.unique, index.encoding, l, sink.pages(), root);
        let ghost sink1 = *sink;
        proof {
            describe::lemma_front_kept(
                sink0.file(),
                sink.file(),
                sink.base(),
                page_size as int,
                sink.filter(),
                now,
            );
            assert(pages_extended(sink0.pages(), sink.pages()));
            assert(roots.secondaries@[j as int] == now[i].secondaries[j as int].root_field);
        }
        match patch_root(
            sink,
            roots.secondaries[j],
            root,
            Ghost(page_size as int),
            Ghost(now),
            Ghost(i),
            Ghost(j + 1),
        ) {
            Ok(_) => {},
            Err(e) => return Err(e),
        }
        reports.push(IndexReport { name: index.name.clone(), entries });
        proof {
            now = now.update(i, amend::with_root(now[i], j + 1, Some(root)));
            lemma_index_step(
                p,
                t,
                was[i],
                now[i],
                sink0.pages(),
                sink.pages(),
                order,
                row_keys,
                refs,
                j as int,
                l,
                root,
            );
            assert forall|q: int| 0 <= q < now[i].secondaries.len() implies (
            #[trigger] roots.secondaries@[q]) as int == now[i].secondaries[q].root_field by {
                assert(was[i].secondaries[q].root_field == now[i].secondaries[q].root_field);
            }
            assert(spools@ =~= all.subrange(j + 1, all.len() as int));
        }
        j += 1;
    }
    proof {
        assert(plan::table_holds(p, t, now[i], sink.pages(), order));
    }
    Ok((reports, Ghost(now)))
}

/// One more index of a table is built.
proof fn lemma_index_step(
    p: PagePlan,
    t: TablePlan,
    was: TableModel,
    now: TableModel,
    a: Seq<Seq<u8>>,
    b: Seq<Seq<u8>>,
    order: Seq<Entry>,
    row_keys: Seq<Seq<Seq<u8>>>,
    refs: Seq<PageRef>,
    j: int,
    l: Seq<Entry>,
    root: PageOrdinal,
)
    requires
        0 <= j < t.indexes.len(),
        plan::described(was, t),
        now == amend::with_root(was, j + 1, Some(root)),
        pages_extended(a, b),
        plan::primary_built(p, t, was.primary, a, order),
        all_keyed(t.indexes, order, row_keys),
        plan::refs_ok(plan::primary_tree(p, t, was.primary), a, order, refs),
        forall|q: int|
            0 <= q < j ==> #[trigger] plan::index_built(
                p,
                plan::primary_tree(p, t, was.primary),
                t.indexes[q],
                was.secondaries[q],
                a,
                order,
            ),
        run::sorted_run(
            t.indexes[j].encoding,
            records_for(row_keys, refs, j),
            0,
            refs.len() as int,
            l,
        ),
        plan::index_holds(p, t.indexes[j].unique, t.indexes[j].encoding, l, b, root),
    ensures
        plan::described(now, t),
        plan::primary_built(p, t, now.primary, b, order),
        plan::refs_ok(plan::primary_tree(p, t, was.primary), b, order, refs),
        forall|q: int|
            0 <= q <= j ==> #[trigger] plan::index_built(
                p,
                plan::primary_tree(p, t, was.primary),
                t.indexes[q],
                now.secondaries[q],
                b,
                order,
            ),
{
    let h = plan::primary_tree(p, t, was.primary);
    lemma_primary_kept(p, t, was.primary, a, b, order);
    lemma_refs_extended(h, a, b, order, refs);
    let ix = t.indexes[j];
    assert forall|q: int| 0 <= q < order.len() implies #[trigger] ix.key_fn.inner.index_key(
        order[q].key,
        order[q].value,
    ) == Some(row_keys[q][j]) by {
        let row = Row { key: order[q].key, value: order[q].value };
        assert(keyed(t.indexes, row, row_keys[q]));
        assert(derived(t.indexes[j], row) == Some(row_keys[q][j]));
    }
    assert(plan::index_records(ix, order, refs) =~= records_for(row_keys, refs, j));
    assert(plan::index_built(p, h, ix, now.secondaries[j], b, order));
    assert forall|q: int| 0 <= q <= j implies #[trigger] plan::index_built(
        p,
        h,
        t.indexes[q],
        now.secondaries[q],
        b,
        order,
    ) by {
        if q < j {
            assert(now.secondaries[q] == was.secondaries[q]);
            lemma_index_kept(p, h, t.indexes[q], was.secondaries[q], a, b, order);
        }
    }
}

/// One sorter per secondary index, filled while the primary tree is written.
fn index_spools<S: Scratch>(
    secondaries: &Vec<SecondarySpec>,
    seed: &S,
    sort_buffer: usize,
) -> (r: Vec<RecordSpool<S>>)
    ensures
        spools_fed(
            r@,
            plan::index_plans(secondaries@),
            Seq::empty(),
            Seq::empty(),
            seed.dependable(),
        ),
{
    let ghost plans = plan::index_plans(secondaries@);
    let mut spools: Vec<RecordSpool<S>> = Vec::new();
    let mut j: usize = 0;
    while j < secondaries.len()
        invariant
            j <= secondaries@.len(),
            plans == plan::index_plans(secondaries@),
            spools@.len() == j,
            forall|q: int|
                0 <= q < j ==> #[trigger] spool_fed(
                    spools@[q],
                    plans[q],
                    Seq::empty(),
                    Seq::empty(),
                    q,
                    seed.dependable(),
                ),
        decreases secondaries@.len() - j,
    {
        let ghost was = spools@;
        let spool = RecordSpool::new(secondaries[j].encoding.clone(), seed.fresh(), sort_buffer);
        proof {
            assert(spool.rows() =~= records_for(Seq::empty(), Seq::empty(), j as int));
            assert(plans[j as int] == secondaries@[j as int]@);
        }
        spools.push(spool);
        proof {
            assert forall|q: int| 0 <= q < j + 1 implies #[trigger] spool_fed(
                spools@[q],
                plans[q],
                Seq::empty(),
                Seq::empty(),
                q,
                seed.dependable(),
            ) by {
                if q < j {
                    assert(spools@[q] == was[q]);
                    assert(spool_fed(
                        was[q],
                        plans[q],
                        Seq::empty(),
                        Seq::empty(),
                        q,
                        seed.dependable(),
                    ));
                }
            }
        }
        j += 1;
    }
    spools
}

/// Builds the trees of a table and fills in their roots.
///
/// `waiting` is what the tables not yet written are holding: the sorters made here share
/// the sort buffer with them.
pub fn build_table<T: BuildTarget, D: Scratch, S: Scratch>(
    sink: &mut PageSink<T, D>,
    page_size: usize,
    eytzinger: bool,
    sort_buffer: usize,
    seed: &S,
    spec: TableSpec<S>,
    roots: &TableRoots,
    waiting: usize,
    Ghost(i): Ghost<int>,
    Ghost(models): Ghost<Seq<TableModel>>,
) -> (r: Result<(TableReport, Ghost<Seq<TableModel>>), Error>)
    requires
        old(sink).wf(),
        tree::MIN_PAGE_SIZE <= page_size <= 0x7FFF_FFFF,
        spec.wf(),
        spec.spool.dependable() == seed.dependable(),
        0 <= i < models.len(),
        plan::described(models[i], spec@),
        describe::roots_match(*roots, models[i]),
        describe::front_written(
            old(sink).file(),
            old(sink).base(),
            page_size as int,
            old(sink).filter(),
            models,
        ),
    ensures
        final(sink).dependable() == old(sink).dependable(),
        final(sink).filter() == old(sink).filter(),
        match r {
            Ok((made, now)) => {
                &&& final(sink).wf()
                &&& final(sink).base() == old(sink).base()
                &&& pages_extended(old(sink).pages(), final(sink).pages())
                &&& sink::within(old(sink), final(sink), table_pages(spec@))
                &&& report::reported(made, spec@)
                &&& others_same(models, now@, i)
                &&& plan::table_built(
                    PagePlan { page_size: page_size as int, eytzinger },
                    spec@,
                    now@[i],
                    final(sink).pages(),
                )
                &&& describe::front_written(
                    final(sink).file(),
                    final(sink).base(),
                    page_size as int,
                    final(sink).filter(),
                    now@,
                )
            },
            Err(e) => table_failure(
                spec@,
                spec.spool.failure(),
                old(sink).dependable() && seed.dependable(),
                table_cramped(
                    old(sink),
                    PagePlan { page_size: page_size as int, eytzinger },
                    spec@,
                ),
                e,
            ),
        },
{
    let ghost t = spec@;
    let ghost p = PagePlan { page_size: page_size as int, eytzinger };
    let ghost first = *sink;
    proof {
        lemma_table_pages(t);
        if pace::overfull(t.rows) {
            room::lemma_overfull(p, t.encoding, true, t.rows);
        }
    }
    let TableSpec { name, encoding, secondaries, spool } = spec;
    let mut spool = spool;
    let rows = spool.len();
    let mut spools = index_spools(&secondaries, seed, sort_buffer);
    // The records the primary sort hands out are in memory when the whole table fitted in
    // the buffer, and the index sorters fill up beside them. A table with indexes therefore
    // keeps at most half the buffer in memory and writes the rest out, so that what the
    // indexes are given is room that exists.
    let share = sort_buffer.saturating_sub(waiting);
    if secondaries.len() > 0 && spool.buffered_bytes() > share / 2 {
        match spool.flush() {
            Ok(_) => {},
            Err(e) => return Err(e),
        }
    }
    let sorted = match spool.into_sorted() {
        Ok(sorted) => sorted,
        Err(e) => return Err(e),
    };
    // What the primary sort is holding comes off the top: it is memory in use for as long
    // as the rows are being read.
    let index_budget = share.saturating_sub(sorted.held_bytes());
    let done = match write_primary(
        sink,
        page_size,
        eytzinger,
        name.as_str(),
        &encoding,
        &secondaries,
        sorted,
        &mut spools,
        index_budget,
        Ghost(t),
    ) {
        Ok(done) => done,
        Err(e) => return Err(e),
    };
    let ghost sink1 = *sink;
    proof {
        describe::lemma_front_kept(
            first.file(),
            sink.file(),
            sink.base(),
            page_size as int,
            sink.filter(),
            models,
        );
        assert(pages_extended(first.pages(), sink.pages()));
    }
    match patch_root(
        sink,
        roots.primary,
        done.root,
        Ghost(page_size as int),
        Ghost(models),
        Ghost(i),
        Ghost(0),
    ) {
        Ok(_) => {},
        Err(e) => return Err(e),
    }
    let ghost now = models.update(i, amend::with_root(models[i], 0, Some(done.root)));
    proof {
        assert(plan::described(now[i], t));
        assert(describe::roots_match(*roots, now[i]));
        assert(plan::primary_built(p, t, now[i].primary, sink.pages(), done.order@));
    }
    let (indexes, now) = match write_indexes(
        sink,
        page_size,
        eytzinger,
        name.as_str(),
        &secondaries,
        spools,
        roots,
        Ghost(t),
        Ghost(i),
        Ghost(now),
        Ghost(done),
        Ghost(seed.dependable()),
    ) {
        Ok(done) => done,
        Err(e) => return Err(e),
    };
    Ok((TableReport { name, rows, indexes }, now))
}

} // verus!

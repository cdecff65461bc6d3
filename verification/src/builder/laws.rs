//! What a build makes of the rows it is given.

use vstd::prelude::*;

use super::plan::{self, IndexPlan, TablePlan};
use super::run::{self, Entry};
use super::table;
use super::tree;
use crate::encoding::duplicate::DuplicateKeyEncoding;
use crate::encoding::{self, duplicate, KeyEncoding, SharedEncoding};
use crate::error::Error;
use crate::format::bytes;
use crate::format::node::NodeLayout;
use crate::format::pageref::PageRef;
use crate::model::{self, Row};

verus! {

broadcast use crate::format::group_format;

/// Pages of up to 32767 bytes keep their entries in short, and leave out keys that their digests
/// determine, unless the digests are in tree order or the keys have to be told apart by more than
/// their digests.
pub proof fn lemma_layout(page_size: int, eytzinger: bool, e: SharedEncoding, unique: bool)
    ensures
        ({
            let l = tree::layout_for(page_size, eytzinger, e, unique);
            &&& l.eytzinger <==> eytzinger
            &&& l.compact_meta <==> page_size <= 32767
            &&& l.omitted_keys <==> page_size <= 32767 && unique && !eytzinger && e.inner.exact()
        }),
{
}

/// A key fits where a leaf holds it with the number of a page, and a page above the leaves holds
/// it twice: 28 bytes of prefix, eight of digest for each, and what the layout keeps of each.
pub proof fn lemma_key_room(page_size: int, layout: NodeLayout, key_len: int)
    requires
        !layout.eytzinger,
        layout.valid(),
    ensures
        !layout.compact_meta ==> (tree::key_fits(page_size, layout, key_len) <==> 52 + key_len
            <= page_size && 72 + 2 * key_len <= page_size),
        layout.compact_meta && !layout.omitted_keys ==> (tree::key_fits(page_size, layout, key_len)
            <==> 50 + key_len <= page_size && 66 + 2 * key_len <= page_size),
        layout.omitted_keys ==> (tree::key_fits(page_size, layout, key_len) <==> 60 <= page_size),
{
}

/// Records with the same key are numbered from zero on, in the order they are in.
pub proof fn lemma_record_ids(e: SharedEncoding, l: Seq<Entry>, i: int)
    requires
        0 <= i < l.len(),
    ensures
        i == 0 ==> plan::record_id(e, l, i) == 0,
        i > 0 && e.inner.sign(l[i - 1].key, l[i].key) != 0 ==> plan::record_id(e, l, i) == 0,
        i > 0 && e.inner.sign(l[i - 1].key, l[i].key) == 0 ==> plan::record_id(e, l, i)
            == plan::record_id(e, l, i - 1) + 1,
{
}

/// The entries of an index are its records: by their keys alone in a unique index, and with the
/// number among those of the same key behind the key in any other, four bytes of it.
pub proof fn lemma_index_entries(unique: bool, e: SharedEncoding, l: Seq<Entry>, i: int)
    requires
        0 <= i < l.len(),
        0 <= plan::record_id(e, l, i) < 0x8000_0000,
    ensures
        ({
            let rows = plan::index_rows(unique, e, l);
            &&& rows.len() == l.len()
            &&& rows[i].value == l[i].value
            &&& unique ==> rows[i].key == l[i].key
            &&& !unique ==> {
                &&& rows[i].key.len() == l[i].key.len() + 4
                &&& rows[i].key.subrange(0, l[i].key.len() as int) == l[i].key
                &&& bytes::u32_at(rows[i].key, l[i].key.len() as int) == plan::record_id(e, l, i)
            }
        }),
{
    if !unique {
        let k = l[i].key;
        let rid = plan::record_id(e, l, i);
        let c = duplicate::composite(k, rid);
        let n = k.len() as int;
        assert(c.subrange(0, n) =~= k);
        assert(c.subrange(n, n + 4) =~= bytes::le4(rid));
        bytes::lemma_u32_read_back(c, n, rid);
    }
}

/// A record of an index has the key that the index's function gives for a row, and refers to where
/// the row's value is.
pub proof fn lemma_index_record(ix: IndexPlan, order: Seq<Entry>, refs: Seq<PageRef>, i: int)
    requires
        0 <= i < order.len(),
        order.len() == refs.len(),
        plan::all_keyed(ix, order),
    ensures
        ({
            let l = plan::index_records(ix, order, refs);
            &&& l.len() == order.len()
            &&& ix.key_fn.inner.index_key(order[i].key, order[i].value) == Some(l[i].key)
            &&& l[i].value == refs[i].bytes()
        }),
{
}

/// Whether a row is among records, as the one that was appended in this place.
pub open spec fn recorded(l: Seq<Entry>, q: int, row: Row) -> bool {
    exists|i: int|
        0 <= i < l.len() && (#[trigger] l[i]).seq == q && l[i].key == row.key && l[i].value
            == row.value
}

/// Sorting keeps every row once, with its key and its value, and puts them in order: by key, and
/// by which came first where keys are equal.
pub proof fn lemma_sorted(e: SharedEncoding, rows: Seq<Row>, l: Seq<Entry>)
    requires
        run::sorted_run(e, rows, 0, rows.len() as int, l),
    ensures
        l.len() == rows.len(),
        forall|i: int|
            0 <= i < l.len() ==> (#[trigger] l[i]).seq < rows.len() && rows[l[i].seq as int].key
                == l[i].key && rows[l[i].seq as int].value == l[i].value,
        forall|q: int| 0 <= q < rows.len() ==> #[trigger] recorded(l, q, rows[q]),
        forall|i: int, j: int|
            0 <= i < j < l.len() ==> (#[trigger] l[i]).seq != (#[trigger] l[j]).seq,
        encoding::lawful(&**e.inner) ==> forall|i: int, j: int|
            0 <= i < j < l.len() ==> e.inner.sign((#[trigger] l[i]).key, (#[trigger] l[j]).key) < 0
                || e.inner.sign(l[i].key, l[j].key) == 0 && l[i].seq < l[j].seq,
{
    assert forall|i: int| 0 <= i < l.len() implies (#[trigger] l[i]).seq < rows.len()
        && rows[l[i].seq as int].key == l[i].key && rows[l[i].seq as int].value == l[i].value by {
        assert(run::member(rows, 0, rows.len() as int, l[i]));
    }
    assert forall|q: int| 0 <= q < rows.len() implies #[trigger] recorded(l, q, rows[q]) by {
        run::lemma_run_complete(e, rows, l, q);
        let i = choose|i: int| 0 <= i < l.len() && (#[trigger] l[i]).seq == q;
        assert(run::member(rows, 0, rows.len() as int, l[i]));
    }
    if encoding::lawful(&**e.inner) {
        assert forall|i: int, j: int| 0 <= i < j < l.len() implies e.inner.sign(
            (#[trigger] l[i]).key,
            (#[trigger] l[j]).key,
        ) < 0 || e.inner.sign(l[i].key, l[j].key) == 0 && l[i].seq < l[j].seq by {
            assert(run::entry_before(e, l[i], l[j]));
        }
    }
}

/// The primary index of a table is named after it.
pub proof fn lemma_primary_name(table: Seq<char>)
    ensures
        plan::primary_name(table) == table + "_pk"@,
{
}

/// Whether a row has a key in an index, which the index's encoding takes, with a number behind it
/// too.
pub open spec fn indexable(ix: IndexPlan, row: Row) -> bool {
    ix.key_fn.inner.index_key(row.key, row.value) matches Some(k) && ix.encoding.inner.well_formed(
        k,
    ) && ix.encoding.inner.accepts(k) && (forall|rid: int|
        (DuplicateKeyEncoding { source: ix.encoding }).well_formed(
            #[trigger] duplicate::composite(k, rid),
        ))
}

/// Whether two rows have keys in an index that are not the same.
pub open spec fn told_apart(ix: IndexPlan, a: Row, b: Row) -> bool {
    ix.key_fn.inner.index_key(a.key, a.value) matches Some(x) && (ix.key_fn.inner.index_key(
        b.key,
        b.value,
    ) matches Some(y) && ix.encoding.inner.sign(x, y) != 0)
}

/// Where files can be written and there is room, a table whose rows have keys that differ, and keys
/// in each index that differ where the index is unique, is built: nothing else stands in the way.
pub proof fn lemma_owed(t: TablePlan, e: Error)
    requires
        encoding::lawful(&**t.encoding.inner),
        forall|j: int|
            0 <= j < t.indexes.len() ==> encoding::lawful(
                &**(#[trigger] t.indexes[j]).encoding.inner,
            ),
    ensures
        (forall|a: int, b: int|
            0 <= a < b < t.rows.len() ==> t.encoding.inner.sign(
                (#[trigger] t.rows[a]).key,
                (#[trigger] t.rows[b]).key,
            ) != 0 && t.encoding.inner.sign(t.rows[b].key, t.rows[a].key) != 0) && (forall|
            i: int,
            j: int,
        |
            0 <= i < t.rows.len() && 0 <= j < t.indexes.len() ==> #[trigger] indexable(
                t.indexes[j],
                t.rows[i],
            )) && (forall|a: int, b: int, j: int|
            0 <= a < t.rows.len() && 0 <= b < t.rows.len() && a != b && 0 <= j < t.indexes.len()
                && t.indexes[j].unique ==> #[trigger] told_apart(
                t.indexes[j],
                t.rows[a],
                t.rows[b],
            )) ==> !table::table_failure(t, None, true, false, e),
{
    if (forall|i: int, j: int|
        0 <= i < t.rows.len() && 0 <= j < t.indexes.len() ==> #[trigger] indexable(
            t.indexes[j],
            t.rows[i],
        )) {
        assert forall|i: int, j: int|
            0 <= i < t.rows.len() && 0 <= j < t.indexes.len() implies (#[trigger] table::derived(
            t.indexes[j],
            t.rows[i],
        ) matches Some(k) && t.indexes[j].encoding.inner.well_formed(k)
            && t.indexes[j].encoding.inner.accepts(k) && !table::unfit(
            t.indexes[j].encoding,
            k,
        )) by {
            assert(indexable(t.indexes[j], t.rows[i]));
        }
    }
    if exists|j: int| #[trigger] table::index_refused(t, j) {
        let j = choose|j: int| #[trigger] table::index_refused(t, j);
        assert(t.indexes[j].unique && table::key_twice(t, j));
        let (a, b) = choose|a: int, b: int|
            0 <= a < t.rows.len() && 0 <= b < t.rows.len() && a != b && (#[trigger] table::derived(
                t.indexes[j],
                t.rows[a],
            ) matches Some(x) && (#[trigger] table::derived(t.indexes[j], t.rows[b]) matches Some(y)
                && t.indexes[j].encoding.inner.sign(x, y) == 0));
        assert(!told_apart(t.indexes[j], t.rows[a], t.rows[b]));
    }
}

/// The least page size is the least at which a key fits that its digest determines, and the sort
/// buffer is never less than 64 kibibytes. Unless it is told otherwise, a build makes pages of four
/// kibibytes and holds 64 mebibytes of records.
pub proof fn lemma_least_page(page_size: int, layout: NodeLayout, key_len: int, bytes: int)
    requires
        !layout.eytzinger,
        layout.omitted_keys,
        layout.valid(),
    ensures
        tree::MIN_PAGE_SIZE <= page_size <==> tree::key_fits(page_size, layout, key_len),
        bytes < super::LEAST_SORT_BUFFER <==> bytes < 64 * 1024,
        super::DEFAULT_PAGE_SIZE == 4 * 1024,
        super::DEFAULT_SORT_BUFFER == 64 * 1024 * 1024,
{
}

} // verus!

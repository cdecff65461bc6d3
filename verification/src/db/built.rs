//! What was appended is what is there.

use vstd::prelude::*;

use super::laws::{self, built_and_opened, IndexParts};
use super::open::Opening;
use super::Database;
use crate::builder::image::{Image, Plan};
use crate::builder::plan::{self, IndexPlan, TablePlan};
use crate::builder::run;
use crate::encoding::{self, KeyEncoding, SharedEncoding};
use crate::format::node::NodeLayout;
use crate::index;
use crate::io::SharedSource;
use crate::model::{Pages, Row, TreeShape};

verus! {

/// The tree of a table holds every row that was appended, no other, and none of them twice; no two
/// rows have the same key.
pub proof fn lemma_table_rows(
    p: Plan,
    im: Image,
    db: &Database,
    source: SharedSource,
    o: Opening,
    i: int,
) -> (s: TreeShape)
    requires
        built_and_opened(p, im, db, source, o),
        0 <= i < p.tables.len(),
        encoding::lawful(&**p.tables[i].encoding.inner),
    ensures
        exists|layout: NodeLayout| #[trigger]
            db.spec_tables()[i].spec_primary().holds(s, layout),
        s.rows.len() == p.tables[i].rows.len(),
        forall|q: int|
            0 <= q < p.tables[i].rows.len() ==> s.rows.contains(#[trigger] p.tables[i].rows[q]),
        forall|r: int|
            0 <= r < s.rows.len() ==> p.tables[i].rows.contains(#[trigger] s.rows[r]),
        forall|a: int, b: int|
            0 <= a < b < p.tables[i].rows.len() ==> p.tables[i].encoding.inner.sign(
                (#[trigger] p.tables[i].rows[a]).key,
                (#[trigger] p.tables[i].rows[b]).key,
            ) != 0,
{
    let t = p.tables[i];
    let n = t.rows.len() as int;
    let (order, s) = laws::lemma_built_table(p, im, db, source, o, i);
    let e = t.encoding;
    assert forall|q: int| 0 <= q < n implies s.rows.contains(#[trigger] t.rows[q]) by {
        run::lemma_run_complete(e, t.rows, order, q);
        let a = choose|a: int| 0 <= a < order.len() && (#[trigger] order[a]).seq == q;
        assert(run::member(t.rows, 0, n, order[a]));
        assert(s.rows[a] == t.rows[q]);
    }
    assert forall|r: int| 0 <= r < s.rows.len() implies t.rows.contains(#[trigger] s.rows[r]) by {
        assert(run::member(t.rows, 0, n, order[r]));
        assert(t.rows[order[r].seq as int] == s.rows[r]);
    }
    laws::lemma_reader_encoding(p, im, db, source, o, i);
    let f = db.spec_tables()[i].spec_primary().spec_encoding();
    assert forall|a: int, b: int| 0 <= a < b < n implies e.inner.sign(
        (#[trigger] t.rows[a]).key,
        (#[trigger] t.rows[b]).key,
    ) != 0 by {
        run::lemma_run_complete(e, t.rows, order, a);
        run::lemma_run_complete(e, t.rows, order, b);
        let x = choose|x: int| 0 <= x < order.len() && (#[trigger] order[x]).seq == a;
        let y = choose|y: int| 0 <= y < order.len() && (#[trigger] order[y]).seq == b;
        assert(run::member(t.rows, 0, n, order[x]));
        assert(run::member(t.rows, 0, n, order[y]));
        let (k, l) = (t.rows[a].key, t.rows[b].key);
        assert(s.rows[x].key == k && s.rows[y].key == l);
        assert(f.inner.accepts(s.rows[x].key) && f.inner.accepts(s.rows[y].key));
        assert(f.inner.sign(k, l) == e.inner.sign(k, l));
        if x < y {
            assert(f.inner.sign(s.rows[x].key, s.rows[y].key) < 0);
        } else {
            assert(f.inner.sign(s.rows[y].key, s.rows[x].key) < 0);
            assert(f.inner.sign(l, k) == e.inner.sign(l, k));
        }
    }
    s
}

/// Whether an entry of an index is that of a row: under the key that the index's function gives for
/// the row, referring to the row's value.
pub open spec fn stands_for(pages: Pages, ix: IndexPlan, entry: Row, row: Row) -> bool {
    ix.key_fn.inner.index_key(row.key, row.value) matches Some(k) && index::index_row(
        pages,
        ix.unique,
        entry,
    ) == Some(Row { key: k, value: row.value })
}

/// Whether a row comes before another in an index: by index key, and by primary key where the index
/// keys are equal.
pub open spec fn indexed_before(e: SharedEncoding, ix: IndexPlan, x: Row, y: Row) -> bool {
    let k = ix.key_fn.inner.index_key(x.key, x.value)->Some_0;
    let l = ix.key_fn.inner.index_key(y.key, y.value)->Some_0;
    ix.encoding.inner.sign(k, l) < 0 || ix.encoding.inner.sign(k, l) == 0 && e.inner.sign(
        x.key,
        y.key,
    ) < 0
}

/// The tree of an index has an entry for every row that was appended, and no others, in the order
/// of their index keys; entries with the same index key are in the order of the primary keys of
/// their rows. Entry `q` is that of row `from[q]`.
pub proof fn lemma_index_entries(
    p: Plan,
    im: Image,
    db: &Database,
    source: SharedSource,
    o: Opening,
    i: int,
    j: int,
) -> (r: (TreeShape, Seq<int>))
    requires
        built_and_opened(p, im, db, source, o),
        0 <= i < p.tables.len(),
        0 <= j < p.tables[i].indexes.len(),
        encoding::lawful(&**p.tables[i].encoding.inner),
        encoding::lawful(&**p.tables[i].indexes[j].encoding.inner),
    ensures
        exists|layout: NodeLayout| #[trigger]
            db.spec_tables()[i].spec_secondaries()[j].spec_tree().holds(r.0, layout),
        r.0.rows.len() == p.tables[i].rows.len(),
        r.1.len() == p.tables[i].rows.len(),
        forall|q: int|
            0 <= q < r.1.len() ==> 0 <= #[trigger] r.1[q] < p.tables[i].rows.len() && stands_for(
                db.spec_store().pages(),
                p.tables[i].indexes[j],
                r.0.rows[q],
                p.tables[i].rows[r.1[q]],
            ),
        forall|a: int, b: int|
            0 <= a < b < r.1.len() ==> #[trigger] r.1[a] != #[trigger] r.1[b] && indexed_before(
                p.tables[i].encoding,
                p.tables[i].indexes[j],
                p.tables[i].rows[r.1[a]],
                p.tables[i].rows[r.1[b]],
            ),
{
    let t = p.tables[i];
    let ix = t.indexes[j];
    let parts = laws::lemma_built_index(p, im, db, source, o, i, j);
    let no_twins = lemma_table_rows(p, im, db, source, o, i);
    laws::lemma_built_keyed(p, im, db, source, o, i, j, parts.order);
    let from = came_from(parts);
    let h = db.spec_tables()[i].spec_secondaries()[j];
    let layout = choose|layout: NodeLayout| #[trigger] h.spec_tree().holds(parts.shape, layout);
    assert(db.spec_tables()[i].spec_secondaries()[j].spec_tree().holds(parts.shape, layout));
    lemma_entries_of(db.spec_store().pages(), t, ix, parts);
    let r = (parts.shape, from);
    assert(db.spec_tables()[i].spec_secondaries()[j].spec_tree().holds(r.0, layout));
    r
}

/// The rows that the entries of an index are of.
spec fn came_from(parts: IndexParts) -> Seq<int> {
    Seq::new(
        parts.records.len(),
        |q: int| parts.order[parts.records[q].seq as int].seq as int,
    )
}

/// What is known of the parts of an index that was built.
spec fn parts_known(pages: Pages, t: TablePlan, ix: IndexPlan, parts: IndexParts) -> bool {
    let n = t.rows.len() as int;
    &&& run::sorted_run(t.encoding, t.rows, 0, n, parts.order)
    &&& parts.refs.len() == parts.order.len()
    &&& run::sorted_run(
        ix.encoding,
        plan::index_records(ix, parts.order, parts.refs),
        0,
        parts.order.len() as int,
        parts.records,
    )
    &&& plan::all_keyed(ix, parts.order)
    &&& parts.shape.rows.len() == parts.records.len()
    &&& forall|q: int|
        0 <= q < parts.records.len() ==> index::index_row(
            pages,
            ix.unique,
            #[trigger] parts.shape.rows[q],
        ) == Some(
            Row {
                key: parts.records[q].key,
                value: parts.order[parts.records[q].seq as int].value,
            },
        )
    &&& encoding::lawful(&**t.encoding.inner)
    &&& encoding::lawful(&**ix.encoding.inner)
    &&& forall|a: int, b: int|
        0 <= a < b < n ==> t.encoding.inner.sign(
            (#[trigger] t.rows[a]).key,
            (#[trigger] t.rows[b]).key,
        ) != 0
}

proof fn lemma_entries_of(pages: Pages, t: TablePlan, ix: IndexPlan, parts: IndexParts)
    requires
        parts_known(pages, t, ix, parts),
    ensures
        came_from(parts).len() == t.rows.len(),
        forall|q: int|
            0 <= q < came_from(parts).len() ==> 0 <= #[trigger] came_from(parts)[q] < t.rows.len()
                && stands_for(pages, ix, parts.shape.rows[q], t.rows[came_from(parts)[q]]),
        forall|a: int, b: int|
            0 <= a < b < came_from(parts).len() ==> #[trigger] came_from(parts)[a]
                != #[trigger] came_from(parts)[b] && indexed_before(
                t.encoding,
                ix,
                t.rows[came_from(parts)[a]],
                t.rows[came_from(parts)[b]],
            ),
{
    let from = came_from(parts);
    assert forall|q: int| 0 <= q < from.len() implies 0 <= #[trigger] from[q] < t.rows.len()
        && stands_for(pages, ix, parts.shape.rows[q], t.rows[from[q]]) by {
        lemma_entry_of(pages, t, ix, parts, q);
    }
    assert forall|a: int, b: int| 0 <= a < b < from.len() implies #[trigger] from[a]
        != #[trigger] from[b] && indexed_before(t.encoding, ix, t.rows[from[a]], t.rows[from[b]]) by {
        lemma_pair_of(pages, t, ix, parts, a, b);
    }
}

proof fn lemma_entry_of(pages: Pages, t: TablePlan, ix: IndexPlan, parts: IndexParts, q: int)
    requires
        parts_known(pages, t, ix, parts),
        0 <= q < parts.records.len(),
    ensures
        ({
            let x = parts.records[q].seq as int;
            let row = t.rows[came_from(parts)[q]];
            &&& 0 <= came_from(parts)[q] < t.rows.len()
            &&& 0 <= x < parts.order.len()
            &&& parts.order[x].key == row.key
            &&& parts.order[x].value == row.value
            &&& ix.key_fn.inner.index_key(row.key, row.value) == Some(parts.records[q].key)
            &&& stands_for(pages, ix, parts.shape.rows[q], row)
        }),
{
    let recs = plan::index_records(ix, parts.order, parts.refs);
    assert(run::member(recs, 0, parts.order.len() as int, parts.records[q]));
    let x = parts.records[q].seq as int;
    assert(run::member(t.rows, 0, t.rows.len() as int, parts.order[x]));
    assert(ix.key_fn.inner.index_key(parts.order[x].key, parts.order[x].value) is Some);
    assert(recs[x].key == parts.records[q].key);
    assert(index::index_row(pages, ix.unique, parts.shape.rows[q]) == Some(
        Row { key: parts.records[q].key, value: parts.order[x].value },
    ));
}

proof fn lemma_pair_of(
    pages: Pages,
    t: TablePlan,
    ix: IndexPlan,
    parts: IndexParts,
    a: int,
    b: int,
)
    requires
        parts_known(pages, t, ix, parts),
        0 <= a < b < parts.records.len(),
    ensures
        came_from(parts)[a] != came_from(parts)[b],
        indexed_before(
            t.encoding,
            ix,
            t.rows[came_from(parts)[a]],
            t.rows[came_from(parts)[b]],
        ),
{
    lemma_entry_of(pages, t, ix, parts, a);
    lemma_entry_of(pages, t, ix, parts, b);
    let (x, y) = (parts.records[a].seq as int, parts.records[b].seq as int);
    let (u, v) = (came_from(parts)[a], came_from(parts)[b]);
    assert(parts.records[a].seq != parts.records[b].seq);
    assert(u != v) by {
        if x < y {
            assert(parts.order[x].seq != parts.order[y].seq);
        } else {
            assert(parts.order[y].seq != parts.order[x].seq);
        }
    }
    assert(run::entry_before(ix.encoding, parts.records[a], parts.records[b]));
    if ix.encoding.inner.sign(parts.records[a].key, parts.records[b].key) == 0 {
        assert(x < y);
        assert(run::entry_before(t.encoding, parts.order[x], parts.order[y]));
        if u < v {
            assert(t.encoding.inner.sign(t.rows[u].key, t.rows[v].key) != 0);
        } else {
            assert(t.encoding.inner.sign(t.rows[v].key, t.rows[u].key) != 0);
            assert(parts.order[x].seq == u && parts.order[y].seq == v);
        }
    }
}

} // verus!

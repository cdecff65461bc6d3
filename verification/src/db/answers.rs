//! What lookups, ranges, prefixes and counts answer, said of the rows that a tree holds.

use vstd::prelude::*;

use super::table;
use crate::btree::Tree;
use crate::encoding::{
    self, duplicate, laws, order, AsciiEncoding, DuplicateKeyEncoding, KeyEncoding,
    SharedEncoding, UlidEncoding,
};
use crate::error::Error;
use crate::format::node::NodeLayout;
use crate::format::pageref;
use crate::index::{self, Index, IndexCursor};
use crate::model::{Row, TreeShape};
use crate::query::count;
use crate::query::cursor::{Cursor, Order};
use crate::query::laws::{full_scan, given, lemma_full_scan};
use crate::query::range::{self, Bound, Ends};

verus! {

broadcast use crate::format::group_format;

/// The rows that a scan gave out.
pub open spec fn given_out(trace: Seq<Cursor>) -> Seq<Row> {
    Seq::new((trace.len() - 2) as nat, |i: int| trace[i + 1].entry()->Some_0)
}

/// Whether rows are those of a list whose keys are inside bounds: each of them, no others. An
/// inclusive bound takes its key in, and an exclusive one leaves it out.
pub open spec fn rows_inside(
    e: SharedEncoding,
    rows: Seq<Row>,
    lo: Bound<Seq<u8>>,
    hi: Bound<Seq<u8>>,
    out: Seq<Row>,
) -> bool {
    &&& forall|i: int| 0 <= i < out.len() ==> rows.contains(#[trigger] out[i])
    &&& forall|x: int|
        0 <= x < rows.len() ==> ({
            let k = (#[trigger] rows[x]).key;
            out.contains(rows[x]) <==> {
                &&& lo matches Bound::Included(a) ==> e.inner.sign(k, a) >= 0
                &&& lo matches Bound::Excluded(a) ==> e.inner.sign(k, a) > 0
                &&& hi matches Bound::Included(b) ==> e.inner.sign(k, b) <= 0
                &&& hi matches Bound::Excluded(b) ==> e.inner.sign(k, b) < 0
            }
        })
}

/// Whether the keys of rows ascend, or descend.
pub open spec fn rows_ordered(e: SharedEncoding, order: Order, out: Seq<Row>) -> bool {
    forall|i: int, j: int|
        0 <= i < j < out.len() ==> ({
            let s = e.inner.sign((#[trigger] out[i]).key, (#[trigger] out[j]).key);
            match order {
                Order::Ascending => s < 0,
                Order::Descending => s > 0,
            }
        })
}

proof fn lemma_run_rows(
    e: SharedEncoding,
    ends: Ends,
    rows: Seq<Row>,
    asc: bool,
    a: int,
    out: Seq<Row>,
)
    requires
        !ends.empty,
        crate::query::laws::selected_run(e, ends, rows, a, out.len() as int),
        forall|i: int|
            0 <= i < out.len() ==> #[trigger] out[i] == rows[given(asc, a, out.len() as int, i)],
    ensures
        rows_inside(e, rows, ends.lower, ends.upper, out),
{
    let n = out.len() as int;
    assert forall|i: int| 0 <= i < out.len() implies rows.contains(#[trigger] out[i]) by {
        assert(rows[given(asc, a, n, i)] == out[i]);
    }
    assert forall|x: int| 0 <= x < rows.len() implies (out.contains(#[trigger] rows[x])
        <==> ends.selects(e, rows[x].key)) by {
        if ends.selects(e, rows[x].key) {
            let i = if asc {
                x - a
            } else {
                a + n - 1 - x
            };
            assert(out[i] == rows[x]);
        }
        if out.contains(rows[x]) {
            let i = choose|i: int| 0 <= i < out.len() && out[i] == rows[x];
            let y = given(asc, a, n, i);
            assert(rows[y].key == rows[x].key);
        }
    }
}

proof fn lemma_run_order(
    e: SharedEncoding,
    rows: Seq<Row>,
    order: Order,
    a: int,
    out: Seq<Row>,
)
    requires
        0 <= a,
        a + out.len() <= rows.len(),
        crate::model::sorted_rows(e, rows),
        encoding::lawful(&**e.inner),
        forall|i: int|
            0 <= i < out.len() ==> #[trigger] out[i] == rows[given(
                order.asc(),
                a,
                out.len() as int,
                i,
            )],
    ensures
        rows_ordered(e, order, out),
{
    let n = out.len() as int;
    assert forall|i: int, j: int| 0 <= i < j < n implies ({
        let s = e.inner.sign((#[trigger] out[i]).key, (#[trigger] out[j]).key);
        match order {
            Order::Ascending => s < 0,
            Order::Descending => s > 0,
        }
    }) by {
        let (x, y) = (given(order.asc(), a, n, i), given(order.asc(), a, n, j));
        let (k, l) = (rows[x].key, rows[y].key);
        assert(e.inner.accepts(k) && e.inner.accepts(l));
        match order {
            Order::Ascending => {
                assert(e.inner.sign(k, l) < 0);
            },
            Order::Descending => {
                assert(e.inner.sign(l, k) < 0);
            },
        }
    }
}

/// A range gives out the rows whose keys are inside its bounds: each of them, no others, in
/// ascending or in descending order of their keys.
pub proof fn lemma_range_rows(
    trace: Seq<Cursor>,
    s: TreeShape,
    layout: NodeLayout,
    lo: Bound<Seq<u8>>,
    hi: Bound<Seq<u8>>,
)
    requires
        full_scan(trace),
        trace[0].spec_tree().holds(s, layout),
        trace[0].ends() == (Ends { lower: lo, upper: hi, empty: false }),
    ensures
        forall|i: int|
            0 <= i < given_out(trace).len() ==> trace[i + 1].entry() == Some(
                #[trigger] given_out(trace)[i],
            ),
        rows_inside(trace[0].spec_tree().spec_encoding(), s.rows, lo, hi, given_out(trace)),
        rows_ordered(
            trace[0].spec_tree().spec_encoding(),
            trace[0].spec_order(),
            given_out(trace),
        ),
{
    let t = &*trace[0].spec_tree();
    let e = t.spec_encoding();
    let out = given_out(trace);
    let a = lemma_full_scan(trace, s, layout);
    assert forall|i: int| 0 <= i < out.len() implies #[trigger] out[i] == s.rows[given(
        trace[0].spec_order().asc(),
        a,
        out.len() as int,
        i,
    )] && trace[i + 1].entry() == Some(out[i]) by {}
    lemma_run_rows(e, trace[0].ends(), s.rows, trace[0].spec_order().asc(), a, out);
    lemma_run_order(e, s.rows, trace[0].spec_order(), a, out);
}

/// A prefix query gives out the rows whose keys start with the prefix, and no others, where keys
/// order by their bytes.
pub proof fn lemma_prefix_rows(
    trace: Seq<Cursor>,
    s: TreeShape,
    layout: NodeLayout,
    prefix: Seq<u8>,
)
    requires
        full_scan(trace),
        trace[0].spec_tree().holds(s, layout),
        trace[0].ends() == range::prefix_ends(prefix),
        trace[0].spec_tree().spec_encoding().behaves_like(AsciiEncoding)
            || trace[0].spec_tree().spec_encoding().behaves_like(UlidEncoding),
    ensures
        forall|x: int|
            0 <= x < s.rows.len() ==> ({
                let k = (#[trigger] s.rows[x]).key;
                given_out(trace).contains(s.rows[x]) <==> prefix.len() <= k.len() && k.subrange(
                    0,
                    prefix.len() as int,
                ) == prefix
            }),
{
    let ends = range::prefix_ends(prefix);
    let e = trace[0].spec_tree().spec_encoding();
    lemma_range_rows(trace, s, layout, ends.lower, ends.upper);
    lemma_byte_sign(e);
    assert forall|x: int| 0 <= x < s.rows.len() implies ends.selects(
        e,
        (#[trigger] s.rows[x]).key,
    ) == range::has_prefix(s.rows[x].key, prefix) by {
        range::lemma_prefix_range(e, prefix, s.rows[x].key);
    }
}

proof fn lemma_byte_sign(e: SharedEncoding)
    requires
        e.behaves_like(AsciiEncoding) || e.behaves_like(UlidEncoding),
    ensures
        forall|a: Seq<u8>, b: Seq<u8>| #[trigger] e.inner.sign(a, b) == order::lex(a, b),
        e.inner.lexicographic(),
{
    laws::lemma_byte_order_said();
    assert forall|a: Seq<u8>, b: Seq<u8>| #[trigger] e.inner.sign(a, b) == order::lex(a, b) by {
        laws::lemma_byte_keys(a, b);
        assert(AsciiEncoding.sign(a, b) == order::lex(a, b));
        assert(UlidEncoding.sign(a, b) == order::lex(a, b));
    }
}

/// A byte prefix of any length is a range of keys that order by their bytes: its bounds are in
/// order, so that no prefix query of such a table is refused.
pub proof fn lemma_prefix_taken(e: SharedEncoding, prefix: Seq<u8>)
    requires
        e.behaves_like(AsciiEncoding) || e.behaves_like(UlidEncoding),
    ensures
        e.inner.lexicographic(),
        range::prefix_ends(prefix).comparable(e),
        !range::prefix_ends(prefix).empty,
{
    lemma_byte_sign(e);
    let ends = range::prefix_ends(prefix);
    assert(forall|k: Seq<u8>| #[trigger] e.inner.accepts(k));
    if prefix.len() > 0 && range::stripped_len(prefix) > 0 {
        range::lemma_prefix_range(e, prefix, prefix);
        assert(prefix.subrange(0, prefix.len() as int) =~= prefix);
        assert(ends.selects(e, prefix));
    }
}

/// A count is the number of rows whose keys are inside the bounds.
pub proof fn lemma_count_rows(
    t: &Tree,
    s: TreeShape,
    lo: Bound<Seq<u8>>,
    hi: Bound<Seq<u8>>,
    n: u64,
)
    requires
        count::is_count(t, (Ends { lower: lo, upper: hi, empty: false }), s, n),
    ensures
        ({
            let e = t.spec_encoding();
            let inside = Set::new(
                |x: int|
                    {
                        let k = s.rows[x].key;
                        &&& 0 <= x < s.rows.len()
                        &&& lo matches Bound::Included(a) ==> e.inner.sign(k, a) >= 0
                        &&& lo matches Bound::Excluded(a) ==> e.inner.sign(k, a) > 0
                        &&& hi matches Bound::Included(b) ==> e.inner.sign(k, b) <= 0
                        &&& hi matches Bound::Excluded(b) ==> e.inner.sign(k, b) < 0
                    },
            );
            &&& inside.finite()
            &&& inside.len() <= u64::MAX ==> n == inside.len()
            &&& inside.len() > u64::MAX ==> n == u64::MAX
        }),
{
    let e = t.spec_encoding();
    let ends = Ends { lower: lo, upper: hi, empty: false };
    let (a, m) = choose|a: int, m: int| #[trigger]
        crate::query::laws::selected_run(e, ends, s.rows, a, m) && n == crate::budget::capped(m);
    let inside = Set::new(
        |x: int|
            {
                let k = s.rows[x].key;
                &&& 0 <= x < s.rows.len()
                &&& lo matches Bound::Included(a) ==> e.inner.sign(k, a) >= 0
                &&& lo matches Bound::Excluded(a) ==> e.inner.sign(k, a) > 0
                &&& hi matches Bound::Included(b) ==> e.inner.sign(k, b) <= 0
                &&& hi matches Bound::Excluded(b) ==> e.inner.sign(k, b) < 0
            },
    );
    assert forall|x: int| inside.contains(x) <==> a <= x < a + m by {
        if 0 <= x < s.rows.len() {
            assert(ends.selects(e, s.rows[x].key) <==> a <= x < a + m);
        }
    }
    assert(inside =~= vstd::set_lib::set_int_range(a, a + m));
    vstd::set_lib::lemma_int_range(a, a + m);
}

/// Every row is found under its own key, with its own value and no other.
pub proof fn lemma_lookup_row(t: &Tree, s: TreeShape, layout: NodeLayout, r: int, v: Seq<u8>)
    requires
        t.holds(s, layout),
        0 <= r < s.rows.len(),
    ensures
        table::has_row(t, s, s.rows[r].key, v) <==> v == s.rows[r].value,
        !table::lacks_key(t, s, s.rows[r].key),
{
    let e = t.spec_encoding();
    let k = s.rows[r].key;
    assert(e.inner.accepts(k));
    assert(e.inner.sign(s.rows[r].key, k) == 0);
    if table::has_row(t, s, k, v) {
        let q = choose|q: int|
            0 <= q < s.rows.len() && e.inner.sign((#[trigger] s.rows[q]).key, k) == 0
                && s.rows[q].value == v;
        assert(e.inner.accepts(s.rows[q].key));
        if q < r {
            assert(e.inner.sign(s.rows[q].key, s.rows[r].key) < 0);
        } else if r < q {
            assert(e.inner.sign(s.rows[r].key, s.rows[q].key) < 0);
            assert(e.inner.sign(s.rows[q].key, s.rows[r].key) > 0);
        }
    }
}

/// A key is not found where no row has it, and only there.
pub proof fn lemma_lookup_none(t: &Tree, s: TreeShape, key: Seq<u8>)
    ensures
        table::lacks_key(t, s, key) <==> forall|v: Seq<u8>| !#[trigger]
            table::has_row(t, s, key, v),
        forall|r: int|
            table::lacks_key(t, s, key) && 0 <= r < s.rows.len() ==> t.spec_encoding().inner.sign(
                (#[trigger] s.rows[r]).key,
                key,
            ) != 0,
{
    let e = t.spec_encoding();
    if !table::lacks_key(t, s, key) {
        let q = choose|q: int|
            0 <= q < s.rows.len() && e.inner.sign((#[trigger] s.rows[q]).key, key) == 0;
        assert(table::has_row(t, s, key, s.rows[q].value));
    }
}

/// Bounds are a range where each of them is a key and the lower one does not sort above the upper
/// one, and nowhere else.
pub proof fn lemma_range_taken(e: SharedEncoding, lo: Bound<Seq<u8>>, hi: Bound<Seq<u8>>)
    requires
        forall|k: Seq<u8>| #[trigger] e.inner.well_formed(k) ==> e.inner.accepts(k),
    ensures
        ({
            let ends = Ends { lower: lo, upper: hi, empty: false };
            ends.well_formed(e) && ends.comparable(e) <==> {
                &&& lo matches Bound::Included(a) ==> e.inner.well_formed(a)
                &&& lo matches Bound::Excluded(a) ==> e.inner.well_formed(a)
                &&& hi matches Bound::Included(b) ==> e.inner.well_formed(b)
                &&& hi matches Bound::Excluded(b) ==> e.inner.well_formed(b)
                &&& match (lo, hi) {
                    (Bound::Included(a), Bound::Included(b)) => e.inner.sign(a, b) <= 0,
                    (Bound::Included(a), Bound::Excluded(b)) => e.inner.sign(a, b) <= 0,
                    (Bound::Excluded(a), Bound::Included(b)) => e.inner.sign(a, b) <= 0,
                    (Bound::Excluded(a), Bound::Excluded(b)) => e.inner.sign(a, b) <= 0,
                    _ => true,
                }
            }
        }),
{
}

/// A bound is of the key that it was given.
pub proof fn lemma_bounds_given(k: &[u8], o: Vec<u8>)
    ensures
        range::bound_of_slice(Bound::Included(k)) == Bound::Included(k@),
        range::bound_of_slice(Bound::Excluded(k)) == Bound::Excluded(k@),
        range::bound_of_slice(Bound::Unbounded) == Bound::<Seq<u8>>::Unbounded,
        range::bound_of(Bound::Included(o)) == Bound::Included(o@),
        range::bound_of(Bound::Excluded(o)) == Bound::Excluded(o@),
        range::bound_of(Bound::Unbounded) == Bound::<Seq<u8>>::Unbounded,
{
}

/// Looking an index key up gives the record of the first entry with that index key, and nothing
/// where no entry has it.
pub proof fn lemma_index_first(
    t: &Tree,
    unique: bool,
    source: SharedEncoding,
    s: TreeShape,
    layout: NodeLayout,
    key: Seq<u8>,
    value: Option<Seq<u8>>,
)
    requires
        t.holds(s, layout),
        encoding::lawful(&**source.inner),
        index::tree_encoding(unique, source, t.spec_encoding()),
        source.inner.accepts(key),
        index::first_record(t, unique, index::point_ends(unique, source, key), s, value),
    ensures
        value is None <==> forall|x: int|
            0 <= x < s.rows.len() ==> source.inner.sign(
                index::caller_key(unique, (#[trigger] s.rows[x]).key),
                key,
            ) != 0,
        value matches Some(v) ==> exists|r: int|
            {
                &&& 0 <= r < s.rows.len()
                &&& source.inner.sign(index::caller_key(unique, (#[trigger] s.rows[r]).key), key)
                    == 0
                &&& index::referred(t.spec_store().pages(), s.rows[r].value) == Some(v)
                &&& forall|x: int|
                    0 <= x < r ==> source.inner.sign(
                        index::caller_key(unique, (#[trigger] s.rows[x]).key),
                        key,
                    ) != 0
            },
{
    let e = t.spec_encoding();
    let point = Bound::Included(key);
    let ends = index::point_ends(unique, source, key);
    assert forall|x: int| 0 <= x < s.rows.len() implies ends.selects(
        e,
        (#[trigger] s.rows[x]).key,
    ) == (source.inner.sign(index::caller_key(unique, s.rows[x].key), key) == 0) by {
        assert(e.inner.accepts(s.rows[x].key));
        index::lemma_index_range(unique, source, e, point, point, ends, s.rows[x].key);
    }
    if let Some(v) = value {
        let r = choose|r: int|
            0 <= r < s.rows.len() && #[trigger] index::first_selected(t, ends, s, r) && (
            index::index_row(t.spec_store().pages(), unique, s.rows[r]) matches Some(row)
                && row.value == v);
        assert(source.inner.sign(index::caller_key(unique, s.rows[r].key), key) == 0);
    }
}

/// Whether a cursor over an index went through these states: one step after another, each of
/// which found an entry but the last.
pub open spec fn index_scan(trace: Seq<IndexCursor>) -> bool {
    &&& trace.len() >= 2
    &&& trace[0].inner().place() is Before
    &&& !trace[0].inner().ends().empty
    &&& forall|i: int|
        0 <= i < trace.len() - 1 ==> (#[trigger] trace[i]).spec_unique() == trace[0].spec_unique()
            && IndexCursor::advanced(trace[i], trace[i + 1], i < trace.len() - 2)
}

/// The entries of an index that a scan went through.
pub open spec fn gone_through(trace: Seq<IndexCursor>) -> Seq<Row> {
    Seq::new((trace.len() - 2) as nat, |i: int| trace[i + 1].inner().entry()->Some_0)
}

/// Each step of a scan of an index gives out the index key of its entry, and the record that the
/// entry refers to.
pub proof fn lemma_index_step(trace: Seq<IndexCursor>, i: int)
    requires
        index_scan(trace),
        0 <= i < trace.len() - 2,
    ensures
        ({
            let (c, row) = (trace[i + 1], gone_through(trace)[i]);
            let pages = trace[0].inner().spec_tree().spec_store().pages();
            &&& c.inner().entry() == Some(row)
            &&& c.spec_key() == index::caller_key(trace[0].spec_unique(), row.key)
            &&& c.spec_value() is Some
            &&& c.spec_value() == index::referred(pages, row.value)
        }),
{
    lemma_same_tree(trace, i);
    assert(trace[i].spec_unique() == trace[0].spec_unique());
    assert(IndexCursor::advanced(trace[i], trace[i + 1], i < trace.len() - 2));
}

/// A range of an index goes through the entries whose index keys are inside its bounds: each of
/// them, no others, by index key ascending or descending.
pub proof fn lemma_index_rows(
    trace: Seq<IndexCursor>,
    source: SharedEncoding,
    s: TreeShape,
    layout: NodeLayout,
    lo: Bound<Seq<u8>>,
    hi: Bound<Seq<u8>>,
)
    requires
        index_scan(trace),
        trace[0].inner().spec_tree().holds(s, layout),
        encoding::lawful(&**source.inner),
        index::tree_encoding(
            trace[0].spec_unique(),
            source,
            trace[0].inner().spec_tree().spec_encoding(),
        ),
        (Ends { lower: lo, upper: hi, empty: false }).accepted(source),
        index::is_tree_range(trace[0].spec_unique(), source, lo, hi, trace[0].inner().ends()),
    ensures
        forall|x: int|
            0 <= x < s.rows.len() ==> ({
                let k = index::caller_key(trace[0].spec_unique(), (#[trigger] s.rows[x]).key);
                gone_through(trace).contains(s.rows[x]) <==> {
                    &&& lo matches Bound::Included(a) ==> source.inner.sign(k, a) >= 0
                    &&& lo matches Bound::Excluded(a) ==> source.inner.sign(k, a) > 0
                    &&& hi matches Bound::Included(b) ==> source.inner.sign(k, b) <= 0
                    &&& hi matches Bound::Excluded(b) ==> source.inner.sign(k, b) < 0
                }
            }),
        rows_ordered(
            trace[0].inner().spec_tree().spec_encoding(),
            trace[0].inner().spec_order(),
            gone_through(trace),
        ),
{
    let unique = trace[0].spec_unique();
    let t = &*trace[0].inner().spec_tree();
    let e = t.spec_encoding();
    let ends = trace[0].inner().ends();
    let inner = Seq::new(trace.len(), |i: int| trace[i].inner());
    lemma_inner_scan(trace, inner);
    lemma_range_rows(inner, s, layout, ends.lower, ends.upper);
    assert(given_out(inner) =~= gone_through(trace));
    let out = gone_through(trace);
    assert forall|x: int| 0 <= x < s.rows.len() implies ({
        let k = index::caller_key(unique, (#[trigger] s.rows[x]).key);
        out.contains(s.rows[x]) <==> {
            &&& lo matches Bound::Included(a) ==> source.inner.sign(k, a) >= 0
            &&& lo matches Bound::Excluded(a) ==> source.inner.sign(k, a) > 0
            &&& hi matches Bound::Included(b) ==> source.inner.sign(k, b) <= 0
            &&& hi matches Bound::Excluded(b) ==> source.inner.sign(k, b) < 0
        }
    }) by {
        assert(e.inner.accepts(s.rows[x].key));
        index::lemma_index_range(unique, source, e, lo, hi, ends, s.rows[x].key);
    }
}

proof fn lemma_inner_scan(trace: Seq<IndexCursor>, inner: Seq<Cursor>)
    requires
        index_scan(trace),
        inner == Seq::new(trace.len(), |i: int| trace[i].inner()),
    ensures
        full_scan(inner),
{
    assert forall|i: int| 0 <= i < inner.len() - 1 implies crate::query::cursor::advanced(
        #[trigger] inner[i],
        inner[i + 1],
        Ok::<bool, Error>(i < inner.len() - 2),
    ) by {
        assert(IndexCursor::advanced(trace[i], trace[i + 1], i < trace.len() - 2));
    }
}

/// Index keys that ascend or descend with record ids do so without them.
pub proof fn lemma_index_order(
    unique: bool,
    source: SharedEncoding,
    e: SharedEncoding,
    order: Order,
    out: Seq<Row>,
    i: int,
    j: int,
)
    requires
        index::tree_encoding(unique, source, e),
        rows_ordered(e, order, out),
        0 <= i < j < out.len(),
    ensures
        ({
            let s = source.inner.sign(
                index::caller_key(unique, out[i].key),
                index::caller_key(unique, out[j].key),
            );
            match order {
                Order::Ascending => s <= 0,
                Order::Descending => s >= 0,
            }
        }),
{
    let (x, y) = (out[i].key, out[j].key);
    assert(e.inner.sign(x, y) == e.inner.sign(out[i].key, out[j].key));
    if !unique {
        let d = DuplicateKeyEncoding { source };
        assert(e.inner.sign(x, y) == d.sign(x, y));
    }
}

proof fn lemma_same_tree(trace: Seq<IndexCursor>, k: int)
    requires
        index_scan(trace),
        0 <= k < trace.len(),
    ensures
        trace[k].inner().spec_tree() == trace[0].inner().spec_tree(),
        trace[k].inner().spec_order() == trace[0].inner().spec_order(),
        trace[k].inner().ends() == trace[0].inner().ends(),
    decreases k,
{
    if k > 0 {
        lemma_same_tree(trace, k - 1);
        assert(IndexCursor::advanced(trace[k - 1], trace[k], k - 1 < trace.len() - 2));
    }
}

/// The bounds that an index takes are those that a table of its keys would: keys, the lower of
/// which does not sort above the upper one.
pub proof fn lemma_index_takes(ix: &Index, lo: Bound<Seq<u8>>, hi: Bound<Seq<u8>>)
    requires
        index::tree_encoding(ix.spec_unique(), ix.spec_source(), ix.spec_tree().spec_encoding()),
        encoding::lawful(&**ix.spec_source().inner),
        forall|k: Seq<u8>| #[trigger]
            ix.spec_source().inner.well_formed(k) ==> ix.spec_source().inner.accepts(k)
                && encoding::builtin::has_width(ix.spec_source().inner.width(), k),
        ix.spec_source().inner.width() matches Some(n) ==> n <= 0xFFFF,
    ensures
        ix.takes(lo, hi, true) <==> {
            let source = ix.spec_source();
            &&& lo matches Bound::Included(a) ==> source.inner.well_formed(a)
            &&& lo matches Bound::Excluded(a) ==> source.inner.well_formed(a)
            &&& hi matches Bound::Included(b) ==> source.inner.well_formed(b)
            &&& hi matches Bound::Excluded(b) ==> source.inner.well_formed(b)
            &&& match (lo, hi) {
                (Bound::Included(a), Bound::Included(b)) => source.inner.sign(a, b) <= 0,
                (Bound::Included(a), Bound::Excluded(b)) => source.inner.sign(a, b) <= 0,
                (Bound::Excluded(a), Bound::Included(b)) => source.inner.sign(a, b) <= 0,
                (Bound::Excluded(a), Bound::Excluded(b)) => source.inner.sign(a, b) <= 0,
                _ => true,
            }
        },
{
    let (source, e) = (ix.spec_source(), ix.spec_tree().spec_encoding());
    if !ix.spec_unique() {
        let d = DuplicateKeyEncoding { source };
        if let Some(a) = range::bound_key_of(lo) {
            lemma_composite_key(source, e, a);
            if let Some(b) = range::bound_key_of(hi) {
                lemma_composite_key(source, e, b);
                if source.inner.accepts(a) && source.inner.accepts(b) {
                    lemma_composite_pair(source, e, a, b, 0, i32::MAX);
                    lemma_composite_pair(source, e, a, b, 0, 0);
                    lemma_composite_pair(source, e, a, b, i32::MAX, i32::MAX);
                    lemma_composite_pair(source, e, a, b, i32::MAX, 0);
                }
            }
        }
        if let Some(b) = range::bound_key_of(hi) {
            lemma_composite_key(source, e, b);
        }
    }
}

proof fn lemma_composite_key(source: SharedEncoding, e: SharedEncoding, k: Seq<u8>)
    requires
        e.behaves_like(DuplicateKeyEncoding { source }),
        source.inner.width() matches Some(n) ==> n <= 0xFFFF,
    ensures
        forall|rid: int|
            0 <= rid < 0x8000_0000 ==> (e.inner.accepts(
                #[trigger] duplicate::composite(k, rid),
            ) <==> source.inner.accepts(k)),
        encoding::builtin::has_width(source.inner.width(), k) ==> forall|rid: int|
            e.inner.well_formed(#[trigger] duplicate::composite(k, rid)),
{
    let d = DuplicateKeyEncoding { source };
    assert forall|rid: int| 0 <= rid < 0x8000_0000 implies (e.inner.accepts(
        #[trigger] duplicate::composite(k, rid),
    ) <==> source.inner.accepts(k)) by {
        duplicate::lemma_split_composite(k, rid);
        assert(e.inner.accepts(duplicate::composite(k, rid)) == d.accepts(
            duplicate::composite(k, rid),
        ));
    }
    if encoding::builtin::has_width(source.inner.width(), k) {
        assert forall|rid: int| e.inner.well_formed(#[trigger] duplicate::composite(k, rid)) by {
            assert(d.well_formed(duplicate::composite(k, rid)));
        }
    }
}

proof fn lemma_composite_pair(
    source: SharedEncoding,
    e: SharedEncoding,
    a: Seq<u8>,
    b: Seq<u8>,
    i: i32,
    j: i32,
)
    requires
        e.behaves_like(DuplicateKeyEncoding { source }),
        source.inner.accepts(a),
        source.inner.accepts(b),
        0 <= i,
        0 <= j,
    ensures
        ({
            let s = e.inner.sign(
                duplicate::composite(a, i as int),
                duplicate::composite(b, j as int),
            );
            s > 0 <==> source.inner.sign(a, b) > 0 || source.inner.sign(a, b) == 0 && i > j
        }),
{
    let d = DuplicateKeyEncoding { source };
    let (x, y) = (duplicate::composite(a, i as int), duplicate::composite(b, j as int));
    laws::lemma_composite_order(source, a, b, i, j);
    assert(e.inner.sign(x, y) == d.sign(x, y));
}

/// What a reference in an index entry designates: a page by the first eight of its bytes, where
/// in the page by the next four, and how much by the last four, each with the byte that counts
/// least first.
pub proof fn lemma_reference_bytes(raw: Seq<u8>)
    requires
        raw.len() == 16,
    ensures
        pageref::page_ref_at(raw) is Some <==> raw[7] < 0x80 && raw[11] < 0x80 && raw[15] < 0x80,
        pageref::page_ref_at(raw) matches Some(r) ==> {
            &&& r.page.get() == raw[0] + 0x100 * raw[1] + 0x1_0000 * raw[2] + 0x100_0000 * raw[3]
                + 0x1_0000_0000 * raw[4] + 0x100_0000_0000 * raw[5] + 0x1_0000_0000_0000 * raw[6]
                + 0x100_0000_0000_0000 * raw[7]
            &&& r.start.get() == raw[8] + 0x100 * raw[9] + 0x1_0000 * raw[10] + 0x100_0000 * raw[11]
            &&& r.length == raw[12] + 0x100 * raw[13] + 0x1_0000 * raw[14] + 0x100_0000 * raw[15]
        },
{
    crate::format::bytes::lemma_numbers(raw, 0);
    crate::format::bytes::lemma_numbers(raw, 8);
    crate::format::bytes::lemma_numbers(raw, 12);
}

} // verus!

//! What a whole scan gives out.

use vstd::prelude::*;

use super::count;
use super::cursor::{self, Cursor, Place};
use super::range::Ends;
use super::scan;
use crate::budget;
use crate::btree::{paths, Tree};
use crate::encoding::SharedEncoding;
use crate::error::Error;
use crate::format::node::NodeLayout;
use crate::format::PageOrdinal;
use crate::model::{Row, TreeShape};

verus! {

/// Whether the rows in a range are the `n` rows from `a` on.
pub open spec fn selected_run(
    e: SharedEncoding,
    ends: Ends,
    rows: Seq<Row>,
    a: int,
    n: int,
) -> bool {
    &&& 0 <= a
    &&& 0 <= n
    &&& a + n <= rows.len()
    &&& forall|x: int|
        0 <= x < rows.len() ==> (ends.selects(e, (#[trigger] rows[x]).key) <==> a <= x < a + n)
}

/// The `i`-th row that a scan gives out of a run.
pub open spec fn given(asc: bool, a: int, n: int, i: int) -> int {
    if asc {
        a + i
    } else {
        a + n - 1 - i
    }
}

/// Whether a cursor went through these states: one step after another, each of which found
/// an entry but the last.
pub open spec fn full_scan(trace: Seq<Cursor>) -> bool {
    &&& trace.len() >= 2
    &&& trace[0].place() is Before
    &&& !trace[0].ends().empty
    &&& forall|i: int|
        0 <= i < trace.len() - 1 ==> cursor::advanced(
            #[trigger] trace[i],
            trace[i + 1],
            Ok::<bool, Error>(i < trace.len() - 2),
        )
}

/// An entry is one row.
pub proof fn lemma_one_row(
    t: &Tree,
    s: TreeShape,
    layout: NodeLayout,
    o: PageOrdinal,
    i: int,
    a: int,
    b: int,
)
    requires
        t.holds(s, layout),
        paths::entry_is_row(s, o, i, a),
        paths::entry_is_row(s, o, i, b),
    ensures
        a == b,
{
    let x = choose|x: int| #[trigger] paths::leaf_at(s, o, x) && a == s.levels[0][x].first + i;
    let y = choose|y: int| #[trigger] paths::leaf_at(s, o, y) && b == s.levels[0][y].first + i;
    scan::lemma_one_leaf(t, s, layout, o, x, y);
}

/// Where a scan is after `k` steps, when it started at row `first`.
proof fn lemma_at(trace: Seq<Cursor>, s: TreeShape, layout: NodeLayout, first: int, k: int)
    requires
        full_scan(trace),
        trace[0].spec_tree().holds(s, layout),
        1 <= k < trace.len() - 1,
        scan::starts(
            trace[0].spec_tree().spec_encoding(),
            trace[0].ends(),
            trace[0].spec_order().asc(),
            s.rows,
            first,
        ),
    ensures
        trace[k].spec_tree() == trace[0].spec_tree(),
        trace[k].ends() == trace[0].ends(),
        trace[k].spec_order() == trace[0].spec_order(),
        ({
            let r = if trace[0].spec_order().asc() {
                first + (k - 1)
            } else {
                first - (k - 1)
            };
            &&& trace[k].place() matches Place::On { page, index } && paths::entry_is_row(
                s,
                page,
                index,
                r,
            )
            &&& 0 <= r < s.rows.len()
            &&& trace[0].ends().selects(trace[0].spec_tree().spec_encoding(), s.rows[r].key)
            &&& trace[k].entry() == Some(s.rows[r])
        }),
    decreases k,
{
    let (e, ends, asc) = (
        trace[0].spec_tree().spec_encoding(),
        trace[0].ends(),
        trace[0].spec_order().asc(),
    );
    let r = if asc {
        first + (k - 1)
    } else {
        first - (k - 1)
    };
    if k > 1 {
        lemma_at(trace, s, layout, first, k - 1);
    }
    assert(cursor::advanced(trace[k - 1], trace[k - 1 + 1], Ok::<bool, Error>(true)));
    assert(cursor::stepped(trace[k - 1], trace[k], true, s));
    let (page, index) = (trace[k].place()->page, trace[k].place()->index);
    if k == 1 {
        let q = choose|q: int| #[trigger]
            paths::entry_is_row(s, page, index, q) && scan::starts(e, ends, asc, s.rows, q);
        assert(q == first) by {
            if scan::past(asc, q, first) {
                assert(!scan::reached(e, ends, asc, s.rows[q].key));
            }
            if scan::past(asc, first, q) {
                assert(!scan::reached(e, ends, asc, s.rows[first].key));
            }
        }
    }
    assert(paths::entry_is_row(s, page, index, r));
    let q = choose|q: int| #[trigger]
        paths::entry_is_row(s, page, index, q) && 0 <= q < s.rows.len() && ends.selects(
            e,
            s.rows[q].key,
        ) && trace[k].entry() == Some(s.rows[q]);
    lemma_one_row(&*trace[0].spec_tree(), s, layout, page, index, q, r);
}

/// A scan gives out the rows in its range: all of them, no others, each once, in key order
/// or in the reverse of it.
pub proof fn lemma_full_scan(trace: Seq<Cursor>, s: TreeShape, layout: NodeLayout) -> (a: int)
    requires
        full_scan(trace),
        trace[0].spec_tree().holds(s, layout),
    ensures
        selected_run(
            trace[0].spec_tree().spec_encoding(),
            trace[0].ends(),
            s.rows,
            a,
            trace.len() - 2,
        ),
        forall|i: int|
            0 <= i < trace.len() - 2 ==> (#[trigger] trace[i + 1]).entry() == Some(
                s.rows[given(trace[0].spec_order().asc(), a, trace.len() - 2, i)],
            ),
{
    let n = trace.len() - 2;
    let (e, ends, asc) = (
        trace[0].spec_tree().spec_encoding(),
        trace[0].ends(),
        trace[0].spec_order().asc(),
    );
    assert(cursor::advanced(trace[n], trace[n + 1], Ok::<bool, Error>(false)));
    if n == 0 {
        assert(cursor::stepped(trace[0], trace[1], false, s));
        0
    } else {
        assert(cursor::advanced(trace[0], trace[1], Ok::<bool, Error>(true)));
        assert(cursor::stepped(trace[0], trace[1], true, s));
        let (page, index) = (trace[1].place()->page, trace[1].place()->index);
        let first = choose|q: int| #[trigger]
            paths::entry_is_row(s, page, index, q) && scan::starts(e, ends, asc, s.rows, q);
        assert forall|k: int| 1 <= k <= n implies (#[trigger] trace[k]).entry() == Some(
            s.rows[if asc {
                first + (k - 1)
            } else {
                first - (k - 1)
            }],
        ) by {
            lemma_at(trace, s, layout, first, k);
        }
        lemma_at(trace, s, layout, first, n);
        assert(cursor::stepped(trace[n], trace[n + 1], false, s));
        let last = if asc {
            first + (n - 1)
        } else {
            first - (n - 1)
        };
        let a = if asc {
            first
        } else {
            last
        };
        assert forall|x: int| 0 <= x < s.rows.len() implies (ends.selects(
            e,
            (#[trigger] s.rows[x]).key,
        ) <==> a <= x < a + n) by {
            let k = if asc {
                x - first + 1
            } else {
                first - x + 1
            };
            if 1 <= k <= n {
                lemma_at(trace, s, layout, first, k);
            } else if k < 1 {
                assert(!scan::reached(e, ends, asc, s.rows[x].key));
            } else {
                assert(scan::past(asc, last, x));
            }
        }
        assert forall|i: int| 0 <= i < n implies (#[trigger] trace[i + 1]).entry() == Some(
            s.rows[given(asc, a, n, i)],
        ) by {
            assert(trace[i + 1].entry() == Some(
                s.rows[if asc {
                    first + (i + 1 - 1)
                } else {
                    first - (i + 1 - 1)
                }],
            ));
        }
        a
    }
}

/// A count is the number of rows that a scan of the same range gives out, in either order.
pub proof fn lemma_count_is_scan(trace: Seq<Cursor>, s: TreeShape, layout: NodeLayout, n: u64)
    requires
        full_scan(trace),
        trace[0].spec_tree().holds(s, layout),
        count::is_count(&*trace[0].spec_tree(), trace[0].ends(), s, n),
    ensures
        n == budget::capped(trace.len() - 2),
{
    let (e, ends) = (trace[0].spec_tree().spec_encoding(), trace[0].ends());
    let k = trace.len() - 2;
    let a = lemma_full_scan(trace, s, layout);
    let (b, m) = choose|b: int, m: int| #[trigger]
        selected_run(e, ends, s.rows, b, m) && n == budget::capped(m);
    if k > 0 {
        assert(ends.selects(e, s.rows[a].key));
        assert(ends.selects(e, s.rows[a + k - 1].key));
    }
    if m > 0 {
        assert(ends.selects(e, s.rows[b].key));
        assert(ends.selects(e, s.rows[b + m - 1].key));
    }
}

} // verus!

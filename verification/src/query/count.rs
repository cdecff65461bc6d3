//! Counting the entries in a range.

use std::sync::Arc;

use vstd::prelude::*;

use super::laws;
use super::range::{self, Bound, Ends};
use super::scan;
use crate::btree::{paths, Tree};
use crate::budget;
use crate::encoding::{KeyEncoding, KeyOrder};
use crate::error::Error;
use crate::format::node::{self, NodeLayout};
use crate::format::PageOrdinal;
use crate::model::{self, TreeShape};

verus! {

broadcast use crate::format::group_format;

/// Whether a count covers the rows from `first` to entry `index` of leaf `j`.
pub open spec fn counted_to(
    t: &Tree,
    ends: Ends,
    s: TreeShape,
    o: PageOrdinal,
    index: int,
    steps: u64,
    count: u64,
    first: int,
    j: int,
) -> bool {
    let at = s.levels[0][j].first + index;
    &&& scan::placed(t, true, steps, s, o, j)
    &&& scan::starts(t.spec_encoding(), ends, true, s.rows, first)
    &&& 0 <= index < s.levels[0][j].count
    &&& first <= at
    &&& count == budget::capped(at - first)
    &&& index > 0 ==> at == first
    &&& forall|x: int|
        first <= x < at ==> ends.below_upper(t.spec_encoding(), (#[trigger] s.rows[x]).key)
}

/// Whether a count covers the rows of the range before an entry.
pub open spec fn counting(
    t: &Tree,
    ends: Ends,
    s: TreeShape,
    o: PageOrdinal,
    index: int,
    steps: u64,
    count: u64,
) -> bool {
    exists|first: int, j: int| #[trigger]
        counted_to(t, ends, s, o, index, steps, count, first, j)
}

/// Whether a number is how many rows of a tree are in a range.
pub open spec fn is_count(t: &Tree, ends: Ends, s: TreeShape, n: u64) -> bool {
    exists|a: int, m: int| #[trigger]
        laws::selected_run(t.spec_encoding(), ends, s.rows, a, m) && n == budget::capped(m)
}

/// How many entries of the first `n` leaves of a walk come before where each is cut off, from
/// entry `from` of the first on.
pub open spec fn tally(from: int, cuts: Seq<int>, n: nat) -> nat
    decreases n,
{
    if n == 0 {
        0
    } else {
        let start = if n == 1 {
            from
        } else {
            0
        };
        tally(from, cuts, (n - 1) as nat) + if cuts[n - 1] > start {
            (cuts[n - 1] - start) as nat
        } else {
            0
        }
    }
}

/// Whether each leaf of a walk is cut off where its own entries say that the range ends, which
/// only the last may be.
pub open spec fn cut_off(t: &Tree, ends: Ends, path: Seq<PageOrdinal>, cuts: Seq<int>) -> bool {
    &&& cuts.len() == path.len()
    &&& forall|k: int|
        0 <= k < path.len() - 1 ==> scan::met(
            t.spec_encoding(),
            ends,
            true,
            t.spec_store().pages()[#[trigger] path[k]],
            cuts[k],
            false,
        )
}

/// Whether a number counts the entries that the links of the leaves lead to, whatever the pages
/// hold: from where the range may start, leaving no leaf out, to where it may end.
pub open spec fn counted_along(t: &Tree, ends: Ends, n: u64) -> bool {
    ||| n == 0 && scan::unentered(t, ends, true)
    ||| exists|path: Seq<PageOrdinal>, cuts: Seq<int>, from: int|
        #![trigger scan::is_path(t, true, path), tally(from, cuts, path.len())]
        path.len() > 0 && scan::is_path(t, true, path) && scan::entered(t, ends, true, path[0])
            && cut_off(t, ends, path, cuts) && n == budget::capped(
            tally(from, cuts, path.len()) as int,
        ) && last_leaf(t, ends, path.last(), cuts.last())
}

/// Whether a count may end on a leaf: the range does, or the chain and the tree do.
pub open spec fn last_leaf(t: &Tree, ends: Ends, o: PageOrdinal, cut: int) -> bool {
    exists|stop: bool| #[trigger]
        scan::met(t.spec_encoding(), ends, true, t.spec_store().pages()[o], cut, stop) && (stop
            || t.linked(o, true, None))
}

/// The first leaves of a walk do not depend on the others.
proof fn lemma_tally(from: int, a: Seq<int>, b: Seq<int>, n: nat)
    requires
        n <= a.len() <= b.len(),
        forall|k: int| 0 <= k < n ==> #[trigger] a[k] == b[k],
    ensures
        tally(from, a, n) == tally(from, b, n),
    decreases n,
{
    if n > 0 {
        lemma_tally(from, a, b, (n - 1) as nat);
        assert(a[n - 1] == b[n - 1]);
    }
}

/// Whether a count has come along the links of the leaves to an entry.
#[verifier::opaque]
spec fn along(
    t: &Tree,
    ends: Ends,
    path: Seq<PageOrdinal>,
    cuts: Seq<int>,
    from: int,
    o: PageOrdinal,
    index: int,
    count: u64,
) -> bool {
    &&& path.len() == cuts.len() + 1
    &&& path.last() == o
    &&& scan::is_path(t, true, path)
    &&& scan::entered(t, ends, true, path[0])
    &&& index == (if path.len() == 1 {
        from
    } else {
        0
    })
    &&& count == budget::capped(tally(from, cuts, cuts.len()) as int)
    &&& forall|k: int|
        0 <= k < cuts.len() ==> scan::met(
            t.spec_encoding(),
            ends,
            true,
            t.spec_store().pages()[#[trigger] path[k]],
            cuts[k],
            false,
        )
}

/// What a leaf adds to a count.
spec fn added(count: u64, index: int, limit: int) -> u64 {
    budget::capped(
        count + if limit > index {
            limit - index
        } else {
            0
        },
    )
}

proof fn lemma_along_start(t: &Tree, ends: Ends, o: PageOrdinal, from: int)
    requires
        scan::entered(t, ends, true, o),
    ensures
        along(t, ends, seq![o], Seq::empty(), from, o, from, 0),
{
    reveal(along);
}

proof fn lemma_along_step(
    t: &Tree,
    ends: Ends,
    path: Seq<PageOrdinal>,
    cuts: Seq<int>,
    from: int,
    o: PageOrdinal,
    index: int,
    count: u64,
    limit: int,
    next: PageOrdinal,
)
    requires
        along(t, ends, path, cuts, from, o, index, count),
        scan::met(t.spec_encoding(), ends, true, t.spec_store().pages()[o], limit, false),
        t.linked(o, true, Some(next)),
    ensures
        along(
            t,
            ends,
            path.push(next),
            cuts.push(limit),
            from,
            next,
            0,
            added(count, index, limit),
        ),
{
    reveal(along);
    let (more, all) = (path.push(next), cuts.push(limit));
    lemma_tally(from, cuts, all, cuts.len());
    assert forall|k: int, l: int| 0 <= k && l == k + 1 && l < more.len() implies t.linked(
        #[trigger] more[k],
        true,
        Some(#[trigger] more[l]),
    ) by {
        if l < path.len() {
            assert(t.linked(path[k], true, Some(path[l])));
        }
    }
    assert forall|k: int| 0 <= k < all.len() implies scan::met(
        t.spec_encoding(),
        ends,
        true,
        t.spec_store().pages()[#[trigger] more[k]],
        all[k],
        false,
    ) by {
        if k < cuts.len() {
            assert(more[k] == path[k]);
        } else {
            assert(more[k] == o);
        }
    }
}

proof fn lemma_along_end(
    t: &Tree,
    ends: Ends,
    path: Seq<PageOrdinal>,
    cuts: Seq<int>,
    from: int,
    o: PageOrdinal,
    index: int,
    count: u64,
    limit: int,
    stop: bool,
)
    requires
        along(t, ends, path, cuts, from, o, index, count),
        scan::met(t.spec_encoding(), ends, true, t.spec_store().pages()[o], limit, stop),
        stop || t.linked(o, true, None),
    ensures
        counted_along(t, ends, added(count, index, limit)),
{
    reveal(along);
    let all = cuts.push(limit);
    lemma_tally(from, cuts, all, cuts.len());
    assert(cut_off(t, ends, path, all));
    assert(last_leaf(t, ends, path.last(), all.last()));
    assert(tally(from, all, path.len()) == tally(from, cuts, cuts.len()) + if limit > index {
        (limit - index) as nat
    } else {
        0
    });
}

/// The rows of a range from the first to the one that passes the upper bound.
proof fn lemma_counted(t: &Tree, ends: Ends, s: TreeShape, layout: NodeLayout, first: int, end: int, n: u64)
    requires
        t.holds(s, layout),
        !ends.empty,
        ends.accepted(t.spec_encoding()),
        scan::starts(t.spec_encoding(), ends, true, s.rows, first),
        first <= end <= s.rows.len(),
        forall|x: int|
            first <= x < end ==> ends.below_upper(t.spec_encoding(), (#[trigger] s.rows[x]).key),
        end < s.rows.len() ==> !ends.below_upper(t.spec_encoding(), s.rows[end].key),
        n == budget::capped(end - first),
    ensures
        is_count(t, ends, s, n),
{
    let e = t.spec_encoding();
    assert forall|x: int| 0 <= x < s.rows.len() implies (ends.selects(
        e,
        (#[trigger] s.rows[x]).key,
    ) <==> first <= x < first + (end - first)) by {
        if x < first {
            assert(!scan::reached(e, ends, true, s.rows[x].key));
        } else {
            if x > first {
                scan::lemma_bounds_cut(e, ends, true, s.rows, first, x);
            }
            if x > end {
                scan::lemma_bounds_cut(e, ends, true, s.rows, end, x);
            }
        }
    }
    assert(laws::selected_run(e, ends, s.rows, first, end - first));
}

/// Counts entries in a range without reading any value.
///
/// Takes borrowed bounds so that counting allocates nothing at all: unlike a cursor, which
/// outlives the call that created it, this never needs to own its bounds.
#[verifier::spinoff_prover]
pub(crate) fn count_range(tree: &Arc<Tree>, lower: Bound<&[u8]>, upper: Bound<&[u8]>) -> (r: Result<
    u64,
    Error,
>)
    ensures
        ({
            let ends = Ends {
                lower: range::bound_of_slice(lower),
                upper: range::bound_of_slice(upper),
                empty: false,
            };
            let e = tree.spec_encoding();
            let valid = ends.well_formed(e) && ends.comparable(e);
            match r {
                Ok(n) => valid && counted_along(&**tree, ends, n) && forall|
                    s: TreeShape,
                    layout: NodeLayout,
                | #[trigger]
                    tree.holds(s, layout) ==> is_count(&**tree, ends, s, n),
                Err(err) => if valid {
                    scan::scan_failure(&**tree, ends, err)
                } else {
                    range::refused(e, ends, err)
                },
            }
        }),
{
    let ghost ends = Ends {
        lower: range::bound_of_slice(lower),
        upper: range::bound_of_slice(upper),
        empty: false,
    };
    let ghost t = &**tree;
    let ghost e = t.spec_encoding();
    let low = range::borrowed_key(&lower);
    let high = range::borrowed_key(&upper);
    // Checked before they are compared, as a cursor does.
    if let Some(k) = low {
        match tree.encoding().inner.validate_key(k) {
            Ok(_) => {},
            Err(err) => return Err(err),
        }
    }
    if let Some(k) = high {
        match tree.encoding().inner.validate_key(k) {
            Ok(_) => {},
            Err(err) => return Err(err),
        }
    }
    if let (Some(lo), Some(hi)) = (low, high) {
        match tree.encoding().order(lo, hi) {
            Ok(KeyOrder::Greater) => {
                return Err(Error::invalid("range lower bound sorts above its upper bound"));
            },
            Ok(_) => {},
            Err(err) => return Err(err),
        }
    }
    let (first_page, first_index) = match scan::ascending_start(&**tree, lower, Ghost(ends)) {
        Ok(Some(found)) => found,
        Ok(None) => {
            proof {
                assert forall|s: TreeShape, layout: NodeLayout| #[trigger]
                    tree.holds(s, layout) implies is_count(t, ends, s, 0) by {
                    assert forall|x: int| 0 <= x < s.rows.len() implies (ends.selects(
                        e,
                        (#[trigger] s.rows[x]).key,
                    ) <==> 0 <= x < 0 + 0) by {
                        assert(!scan::reached(e, ends, true, s.rows[x].key));
                    }
                    assert(laws::selected_run(e, ends, s.rows, 0, 0));
                }
            }
            return Ok(0);
        },
        Err(err) => return Err(err),
    };
    let mut page = first_page;
    let mut index = first_index;
    let mut count: u64 = 0;
    let mut steps_left = tree.store().page_count().saturating_add(1);
    let ghost from = first_index as int;
    let ghost mut path: Seq<PageOrdinal> = seq![page.spec_ordinal()];
    let ghost mut cuts: Seq<int> = Seq::empty();
    proof {
        lemma_along_start(t, ends, page.spec_ordinal(), from);
        let o = page.spec_ordinal();
        assert forall|s: TreeShape, layout: NodeLayout| #[trigger]
            t.holds(s, layout) implies counting(t, ends, s, o, index as int, steps_left, count) by {
            assert(scan::start_at(t, ends, true, s, o, index as int));
            let first = choose|r: int| #[trigger]
                paths::entry_is_row(s, o, index as int, r) && scan::starts(
                    e,
                    ends,
                    true,
                    s.rows,
                    r,
                );
            let j = choose|j: int|
                #[trigger] paths::leaf_at(s, o, j) && 0 <= index < s.levels[0][j].count && first
                    == s.levels[0][j].first + index;
            assert(counted_to(t, ends, s, o, index as int, steps_left, count, first, j));
        }
    }
    loop
        invariant
            t == &**tree,
            e == t.spec_encoding(),
            ends == (Ends {
                lower: range::bound_of_slice(lower),
                upper: range::bound_of_slice(upper),
                empty: false,
            }),
            ends.well_formed(e),
            ends.comparable(e),
            range::accepted_bound(e, ends.lower),
            t.spec_root() is Some,
            t.pins(page),
            along(t, ends, path, cuts, from, page.spec_ordinal(), index as int, count),
            forall|s: TreeShape, layout: NodeLayout| #[trigger]
                t.holds(s, layout) ==> counting(
                    t,
                    ends,
                    s,
                    page.spec_ordinal(),
                    index as int,
                    steps_left,
                    count,
                ),
        decreases steps_left,
    {
        let ghost o = page.spec_ordinal();
        proof {
            assert forall|s: TreeShape, layout: NodeLayout| #[trigger]
                t.holds(s, layout) implies node::page_ok(page@) && (exists|j: int| #[trigger]
                scan::placed(t, true, steps_left, s, o, j)) by {
                assert(counting(t, ends, s, o, index as int, steps_left, count));
                let (first, j) = choose|first: int, j: int| #[trigger]
                    counted_to(t, ends, s, o, index as int, steps_left, count, first, j);
                scan::lemma_leaf(t, s, layout, o, j);
                assert(scan::placed(t, true, steps_left, s, o, j));
            }
        }
        let view = match page.parsed() {
            Ok(v) => v,
            Err(err) => return Err(err),
        };
        let (limit, stop) = match scan::leaf_window(
            &**tree,
            upper,
            true,
            &view,
            Ghost(ends),
        ) {
            Ok(w) => w,
            Err(err) => {
                proof {
                    assert forall|s: TreeShape, layout: NodeLayout|
                        ends.accepted(e) implies !#[trigger] t.holds(s, layout) by {
                        if t.holds(s, layout) {
                            let j = choose|j: int| #[trigger]
                                scan::placed(t, true, steps_left, s, o, j);
                            scan::lemma_leaf(t, s, layout, o, j);
                        }
                    }
                }
                return Err(err);
            },
        };
        let more: u64 = if limit > index {
            (limit - index) as u64
        } else {
            0
        };
        let ghost before = count;
        count = count.saturating_add(more);
        if stop {
            proof {
                lemma_along_end(t, ends, path, cuts, from, o, index as int, before, limit as int, stop);
                assert forall|s: TreeShape, layout: NodeLayout| #[trigger]
                    t.holds(s, layout) implies is_count(t, ends, s, count) by {
                    assert(counting(t, ends, s, o, index as int, steps_left, before));
                    let (first, j) = choose|first: int, j: int| #[trigger]
                        counted_to(t, ends, s, o, index as int, steps_left, before, first, j);
                    lemma_page(t, ends, s, layout, o, index as int, first, j, limit as int, true);
                    let leaf = s.levels[0][j].first;
                    let end = if limit > index {
                        leaf + limit
                    } else {
                        leaf + index
                    };
                    lemma_counted(t, ends, s, layout, first, end, count);
                }
            }
            return Ok(count);
        }
        match scan::neighbour(&**tree, true, &page, steps_left) {
            Ok(Some((next, i))) => {
                proof {
                    assert forall|s: TreeShape, layout: NodeLayout| #[trigger]
                        t.holds(s, layout) implies counting(
                        t,
                        ends,
                        s,
                        next.spec_ordinal(),
                        0,
                        (steps_left - 1) as u64,
                        count,
                    ) by {
                        assert(counting(t, ends, s, o, index as int, steps_left, before));
                        let (first, j) = choose|first: int, j: int| #[trigger]
                            counted_to(t, ends, s, o, index as int, steps_left, before, first, j);
                        lemma_page(t, ends, s, layout, o, index as int, first, j, limit as int, false);
                        assert(paths::leaf_at(s, o, j));
                        scan::lemma_neighbour(t, s, layout, o, j, true);
                        scan::lemma_leaf(t, s, layout, next.spec_ordinal(), j + 1);
                        assert(counted_to(
                            t,
                            ends,
                            s,
                            next.spec_ordinal(),
                            0,
                            (steps_left - 1) as u64,
                            count,
                            first,
                            j + 1,
                        ));
                    }
                }
                proof {
                    assert(t.linked(o, true, Some(next.spec_ordinal())));
                    lemma_along_step(
                        t,
                        ends,
                        path,
                        cuts,
                        from,
                        o,
                        index as int,
                        before,
                        limit as int,
                        next.spec_ordinal(),
                    );
                    path = path.push(next.spec_ordinal());
                    cuts = cuts.push(limit as int);
                }
                steps_left = steps_left - 1;
                page = next;
                index = i;
            },
            Ok(None) => {
                proof {
                    assert(t.linked(o, true, None));
                    lemma_along_end(t, ends, path, cuts, from, o, index as int, before, limit as int, stop);
                    assert forall|s: TreeShape, layout: NodeLayout| #[trigger]
                        t.holds(s, layout) implies is_count(t, ends, s, count) by {
                        assert(counting(t, ends, s, o, index as int, steps_left, before));
                        let (first, j) = choose|first: int, j: int| #[trigger]
                            counted_to(t, ends, s, o, index as int, steps_left, before, first, j);
                        lemma_page(t, ends, s, layout, o, index as int, first, j, limit as int, false);
                        assert(paths::leaf_at(s, o, j));
                        scan::lemma_leaf(t, s, layout, o, j);
                        lemma_counted(
                            t,
                            ends,
                            s,
                            layout,
                            first,
                            s.rows.len() as int,
                            count,
                        );
                    }
                }
                return Ok(count);
            },
            Err(err) => return Err(err),
        }
    }
}

/// What the part of a leaf that does not pass the upper bound says of the rows.
proof fn lemma_page(
    t: &Tree,
    ends: Ends,
    s: TreeShape,
    layout: NodeLayout,
    o: PageOrdinal,
    index: int,
    first: int,
    j: int,
    limit: int,
    stop: bool,
)
    requires
        t.holds(s, layout),
        paths::leaf_at(s, o, j),
        0 <= index < s.levels[0][j].count,
        first <= s.levels[0][j].first + index,
        index > 0 ==> s.levels[0][j].first + index == first,
        0 <= first,
        forall|x: int|
            first <= x < s.levels[0][j].first + index ==> ends.below_upper(
                t.spec_encoding(),
                (#[trigger] s.rows[x]).key,
            ),
        ends.accepted(t.spec_encoding()),
        forall|l: NodeLayout, keys: Seq<Seq<u8>>| #[trigger]
            crate::btree::within::ordered(
                t.spec_encoding(),
                l,
                t.spec_store().pages()[o],
                keys,
            ) ==> scan::window(t.spec_encoding(), ends, true, keys, limit, stop),
    ensures
        ({
            let leaf = s.levels[0][j].first;
            let end = if limit > index {
                leaf + limit
            } else {
                leaf + index
            };
            &&& leaf + s.levels[0][j].count <= s.rows.len()
            &&& end <= s.rows.len()
            &&& forall|x: int|
                first <= x < end ==> ends.below_upper(
                    t.spec_encoding(),
                    (#[trigger] s.rows[x]).key,
                )
            &&& stop ==> end < s.rows.len() && !ends.below_upper(t.spec_encoding(), s.rows[end].key)
            &&& !stop ==> end == leaf + s.levels[0][j].count
        }),
{
    let e = t.spec_encoding();
    scan::lemma_leaf(t, s, layout, o, j);
    let keys = model::node_keys(s, 0, j);
    let leaf = s.levels[0][j].first;
    assert(scan::window(e, ends, true, keys, limit, stop));
    let end = if limit > index {
        leaf + limit
    } else {
        leaf + index
    };
    assert forall|x: int| first <= x < end implies ends.below_upper(
        e,
        (#[trigger] s.rows[x]).key,
    ) by {
        if x >= leaf + index {
            assert(keys[x - leaf] == s.rows[x].key);
        }
    }
    if stop {
        assert(keys[end - leaf] == s.rows[end].key);
    }
}

/// How many rows there are in the range of all keys.
pub proof fn lemma_count_all(t: &Tree)
    ensures
        ({
            let ends = Ends { lower: Bound::Unbounded, upper: Bound::Unbounded, empty: false };
            &&& ends.well_formed(t.spec_encoding())
            &&& ends.comparable(t.spec_encoding())
            &&& ends.accepted(t.spec_encoding())
            &&& forall|s: TreeShape, n: u64| #[trigger]
                is_count(t, ends, s, n) ==> n == budget::capped(s.rows.len() as int)
        }),
{
    let ends = Ends { lower: Bound::Unbounded, upper: Bound::Unbounded, empty: false };
    let e = t.spec_encoding();
    assert forall|s: TreeShape, n: u64| #[trigger] is_count(t, ends, s, n) implies n
        == budget::capped(s.rows.len() as int) by {
        let (a, m) = choose|a: int, m: int| #[trigger]
            laws::selected_run(e, ends, s.rows, a, m) && n == budget::capped(m);
        if s.rows.len() > 0 {
            assert(ends.selects(e, s.rows[0].key));
            assert(ends.selects(e, s.rows[s.rows.len() - 1].key));
        }
    }
}

} // verus!

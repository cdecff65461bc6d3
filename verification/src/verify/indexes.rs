//! Checking a secondary index against the table it refers into.

use vstd::prelude::*;
use vstd::string::*;

use super::leaves::{self, verify_tree, Target};
use super::refs::{self, OverflowPages};
use super::report::{short_name, Reporter};
use super::sound;
use crate::btree::{paths, Tree};
use crate::budget;
use crate::error::{message_with, push_decimal, Error};
use crate::format::node::{self, NodeLayout};
use crate::format::pageref;
use crate::format::{PageOrdinal, PAGE_PREFIX_LEN};
use crate::index::{self, Index};
use crate::model::{self, Pages, TreeShape};
use crate::query::cursor::{self, Cursor, Order, Place};
use crate::query::count;
use crate::query::laws;
use crate::query::range::{Bound, Ends};

verus! {

broadcast use crate::format::group_format;

/// The shape that a tree is held in.
pub open spec fn shape_of(t: &Tree) -> (TreeShape, NodeLayout) {
    choose|x: (TreeShape, NodeLayout)| #[trigger] t.holds(x.0, x.1)
}

/// Whether a tree is held in some shape.
pub open spec fn is_held(t: &Tree) -> bool {
    exists|x: (TreeShape, NodeLayout)| #[trigger] t.holds(x.0, x.1)
}

/// The leaves of a held tree.
pub open spec fn leaves_of(t: &Tree) -> Seq<PageOrdinal> {
    if is_held(t) {
        leaves::leaf_pages(shape_of(t).0, shape_of(t).0.levels[0].len() as int)
    } else {
        Seq::empty()
    }
}

/// Whether the pass was stopped for want of memory, or by a source that failed.
pub open spec fn held_up(reporter: &Reporter) -> bool {
    reporter.spec_failure() matches Some(e) && reporter.spec_store().excused(e)
}

/// Whether an index can be scanned: its tree is held, and every entry of it stands for a
/// record.
pub open spec fn scannable(t: &Tree, unique: bool) -> bool {
    &&& is_held(t)
    &&& t.spec_store().steady()
    &&& index::refers(t, unique, shape_of(t).0)
}

/// A whole scan of a held index goes through every row.
proof fn lemma_scanned(index: &Index, trace: Seq<Cursor>)
    requires
        scannable(&*index.spec_tree(), index.spec_unique()),
        laws::full_scan(trace),
        trace[0].spec_tree() == index.spec_tree(),
        trace[0].ends() == (Ends {
            lower: Bound::Unbounded,
            upper: Bound::Unbounded,
            empty: false,
        }),
    ensures
        trace.len() - 2 == shape_of(&*index.spec_tree()).0.rows.len(),
{
    let t = &*index.spec_tree();
    let (s, layout) = shape_of(t);
    let a = laws::lemma_full_scan(trace, s, layout);
    let n = trace.len() - 2;
    let e = t.spec_encoding();
    if n < s.rows.len() {
        let x = if a > 0 {
            0
        } else {
            n as int
        };
        assert(trace[0].ends().selects(e, s.rows[x].key));
    }
}

/// Whether a scan is on a row, with at least `k` rows before it.
spec fn deep_in(s: TreeShape, place: Place, k: int) -> bool {
    place matches Place::On { page, index } && exists|r: int| #[trigger]
        paths::entry_is_row(s, page, index, r) && k <= r < s.rows.len()
}

/// One row further.
proof fn lemma_deeper(t: &Tree, a: Cursor, b: Cursor, s: TreeShape, layout: NodeLayout, k: int)
    requires
        t.holds(s, layout),
        *a.spec_tree() == *t,
        a.spec_order() == Order::Ascending,
        cursor::advanced(a, b, Ok::<bool, Error>(true)),
        k < 0 || deep_in(s, a.place(), k),
        k < 0 ==> a.place() is Before,
        k >= -1,
    ensures
        deep_in(s, b.place(), k + 1),
{
    assert(cursor::stepped(a, b, true, s));
    let (page, index) = (b.place()->page, b.place()->index);
    let q = choose|q: int| #[trigger]
        paths::entry_is_row(s, page, index, q) && 0 <= q < s.rows.len() && b.entry() == Some(
            s.rows[q],
        );
    if k >= 0 {
        let (from, at) = (a.place()->page, a.place()->index);
        let r = choose|r: int| #[trigger]
            paths::entry_is_row(s, from, at, r) && k <= r < s.rows.len();
        assert(paths::entry_is_row(s, page, index, r + 1));
        laws::lemma_one_row(t, s, layout, page, index, q, r + 1);
    }
}

/// Walking the index through its public cursor also resolves every reference, which is
/// exactly the part that can dangle.
fn scan_index(index: &Index, reporter: &mut Reporter, Ghost(held): Ghost<bool>) -> (r: Result<
    (),
    Error,
>)
    requires
        old(reporter).paid(),
        old(reporter).covers(&*index.spec_tree()),
        held ==> scannable(&*index.spec_tree(), index.spec_unique()) && !old(reporter).is_full(),
    ensures
        Reporter::grew(old(reporter), final(reporter)),
        final(reporter).spec_report().pages_checked == old(reporter).spec_report().pages_checked,
        final(reporter).spec_report().trees_checked == old(reporter).spec_report().trees_checked,
        held ==> held_up(final(reporter)) || Reporter::calm(old(reporter), final(reporter)),
        held && r is Ok && final(reporter).spec_failure() is None ==> leaves::more_counted(
            old(reporter),
            final(reporter),
            shape_of(&*index.spec_tree()).0.rows.len() as int,
        ),
        r matches Err(e) ==> index.spec_tree().walk_denied(e),
{
    let ghost r0 = *reporter;
    let ghost t = &*index.spec_tree();
    let ghost ends = Ends { lower: Bound::Unbounded, upper: Bound::Unbounded, empty: false };
    let ghost (s, layout) = shape_of(t);
    proof {
        Reporter::lemma_same(reporter);
        count::lemma_count_all(t);
    }
    let mut cursor = match index.scan(Order::Ascending) {
        Ok(cursor) => cursor,
        Err(e) => return Err(e),
    };
    let mut scanned: u64 = 0;
    let ghost mut trace = seq![cursor.inner()];
    let mut more = true;
    while more
        invariant
            t == &*index.spec_tree(),
            ends == (Ends { lower: Bound::Unbounded, upper: Bound::Unbounded, empty: false }),
            ends.accepted(t.spec_encoding()),
            (s, layout) == shape_of(t),
            r0 == *old(reporter),
            held ==> scannable(&*index.spec_tree(), index.spec_unique()) && !r0.is_full(),
            cursor.wf(),
            cursor.spec_unique() == index.spec_unique(),
            cursor.inner().spec_tree() == index.spec_tree(),
            cursor.inner().ends() == ends,
            cursor.inner().spec_order() == Order::Ascending,
            trace.len() == 1 ==> cursor.inner().place() is Before,
            held && more && trace.len() > 1 ==> deep_in(s, cursor.inner().place(), trace.len() - 2),
            trace.len() >= 1,
            more ==> trace.last() == cursor.inner(),
            trace[0].place() is Before,
            trace[0].spec_tree() == index.spec_tree(),
            trace[0].ends() == ends,
            more ==> forall|i: int|
                0 <= i < trace.len() - 1 ==> cursor::advanced(
                    #[trigger] trace[i],
                    trace[i + 1],
                    Ok::<bool, Error>(true),
                ),
            more ==> scanned == trace.len() - 1,
            Reporter::grew(&r0, reporter),
            reporter.covers(t),
            reporter.spec_report().pages_checked == r0.spec_report().pages_checked,
            reporter.spec_report().trees_checked == r0.spec_report().trees_checked,
            held ==> Reporter::calm(&r0, reporter),
            held ==> reporter.spec_failure() is None || held_up(reporter),
            held && reporter.spec_failure() is None ==> leaves::more_counted(
                &r0,
                reporter,
                scanned as int,
            ) && (!more ==> scanned == budget::capped(s.rows.len() as int)),
        decreases
                if more {
                    1int
                } else {
                    0int
                },
                u64::MAX - scanned,
    {
        let ghost r1 = *reporter;
        let ghost was = trace;
        match cursor.advance() {
            Ok(true) => {
                proof {
                    trace = was.push(cursor.inner());
                    if held {
                        lemma_deeper(t, was.last(), trace.last(), s, layout, was.len() - 2);
                    }
                }
                if scanned == u64::MAX {
                    more = false;
                } else {
                    scanned += 1;
                    reporter.count_entry();
                    proof {
                        Reporter::lemma_quiet(&r0, &r1, reporter);
                    }
                    if reporter.full() {
                        return Ok(());
                    }
                }
            },
            Ok(false) => {
                more = false;
                proof {
                    trace = was.push(cursor.inner());
                    assert forall|i: int| 0 <= i < trace.len() - 1 implies cursor::advanced(
                        #[trigger] trace[i],
                        trace[i + 1],
                        Ok::<bool, Error>(i < trace.len() - 2),
                    ) by {
                        assert(trace[i] == was[i]);
                        if i < was.len() - 1 {
                            assert(trace[i + 1] == was[i + 1]);
                        }
                    }
                    if held {
                        assert(laws::full_scan(trace));
                        lemma_scanned(index, trace);
                    }
                }
            },
            Err(e) => {
                more = false;
                let page = e.location().page;
                reporter.failed(page, e);
                proof {
                    Reporter::lemma_quiet(&r0, &r1, reporter);
                }
            },
        }
    }
    let ghost r2 = *reporter;
    // A count that could not be taken is not a count that agreed: swallowing the failure
    // and comparing the scan against itself says the two paths match when neither ran.
    match index.count() {
        Ok(counted) => {
            if counted != scanned {
                let mut text = message_with("count_range says ", counted, "");
                text.append(" but the scan produced ");
                push_decimal(&mut text, scanned);
                reporter.problem(None, text.as_str());
            }
        },
        Err(e) => {
            let page = e.location().page;
            reporter.failed(page, e);
        },
    }
    proof {
        if *reporter == r2 {
            Reporter::lemma_same(&r2);
        }
        Reporter::lemma_quiet(&r0, &r2, reporter);
    }
    Ok(())
}

/// Whether bytes refer to a value of a table with these leaves: all of a blob page of one of
/// its entries, or the value of an entry on one of its leaves.
pub open spec fn reference_into(pages: Pages, l: Seq<PageOrdinal>, raw: Seq<u8>) -> bool {
    pageref::page_ref_at(raw) matches Some(r) && {
        let p = pages[r.page];
        &&& pages.contains_key(r.page)
        &&& r.fits(p.len() as int)
        &&& if node::page_count(p) == 0 {
            &&& leaves::is_overflow(pages, sound::entry_list(pages, l), r.page)
            &&& r.start.get() == PAGE_PREFIX_LEN
            &&& r.start.get() + r.length == p.len()
        } else {
            &&& l.contains(r.page)
            &&& exists|i: int|
                0 <= i < node::page_count(p) && #[trigger] refs::inline_at(
                    p,
                    i,
                    r.start.get() as int,
                    r.length as int,
                )
        }
    }
}

/// Whether an index is one that a check passes: it can be scanned, and each of its entries
/// refers to a value of the table.
pub open spec fn index_intact(primary: &Tree, t: &Tree, unique: bool) -> bool {
    let s = shape_of(t).0;
    let pages = t.spec_store().pages();
    &&& scannable(t, unique)
    &&& t.spec_store() == primary.spec_store()
    &&& forall|j: int, i: int|
        0 <= j < s.levels[0].len() && 0 <= i < s.levels[0][j].count ==> reference_into(
            pages,
            leaves_of(primary),
            #[trigger] sound::entry_bytes(pages, s.levels[0][j].ordinal, i),
        )
}

/// Whether the blob pages of a table with these leaves, and no others, are remembered.
pub open spec fn collected(
    set: &OverflowPages,
    pages: Pages,
    count: int,
    l: Seq<PageOrdinal>,
) -> bool {
    &&& set.room() >= count
    &&& forall|o: PageOrdinal|
        #[trigger] set.has(o) == (leaves::is_overflow(pages, sound::entry_list(pages, l), o)
            && o.get() < set.room())
}

/// The references of an intact index pass the check against its table.
proof fn lemma_references_held(primary: &Tree, index: &Index, set: OverflowPages)
    requires
        index_intact(primary, &*index.spec_tree(), index.spec_unique()),
        collected(
            &set,
            primary.spec_store().pages(),
            primary.spec_store().file().section.count,
            leaves_of(primary),
        ),
    ensures
        leaves::values_held(
            &*index.spec_tree(),
            Some(primary),
            Some(set),
            shape_of(&*index.spec_tree()).0,
            Some(shape_of(primary)),
        ),
{
    let t = &*index.spec_tree();
    let (s, layout) = shape_of(t);
    let pages = t.spec_store().pages();
    let target: Target = Some(shape_of(primary));
    leaves::lemma_values_held(t, s, layout, target);
    reveal(leaves::values_held);
    assert forall|j: int, i: int|
        0 <= j < s.levels[0].len() && 0 <= i < s.levels[0][j].count implies #[trigger]
        leaves::value_held(t, Some(primary), Some(set), s.levels[0][j].ordinal, i, target) by {
        let o = s.levels[0][j].ordinal;
        assert(leaves::value_held(t, None, None, o, i, target));
        let raw = sound::entry_bytes(pages, o, i);
        assert(reference_into(pages, leaves_of(primary), raw));
        let r = pageref::page_ref_at(raw)->Some_0;
        let p = pages[r.page];
        primary.spec_store().lemma_pages_sound(r.page);
        let l = leaves_of(primary);
        if node::page_count(p) == 0 {
            assert(set.has(r.page));
            assert(l.len() > 0);
        } else {
            let q = choose|q: int| 0 <= q < l.len() && l[q] == r.page;
            let (ps, playout) = shape_of(primary);
            assert(paths::leaf_at(ps, r.page, q));
            assert(model::node_ok(ps, primary.spec_encoding(), playout, pages, 0, q));
        }
    }
}

/// Checks an index: the same structural walk as a primary tree, then a scan.
///
/// The cursor only ever sees the entries a scan can reach, and reads them the way a query
/// does, so on its own it cannot tell a tree that is missing pages from a tree that is
/// smaller.
pub fn verify_index(
    primary: &Tree,
    table_name: &str,
    index: &Index,
    overflow: &mut Option<OverflowPages>,
    reporter: &mut Reporter,
    Ghost(held): Ghost<bool>,
) -> (r: Result<(), Error>)
    requires
        old(reporter).paid(),
        old(reporter).covers(&*index.spec_tree()),
        old(reporter).covers(primary),
        *old(overflow) is Some,
        old(overflow)->Some_0.home() == *primary,
        held ==> {
            &&& !old(reporter).is_full()
            &&& index_intact(primary, &*index.spec_tree(), index.spec_unique())
            &&& collected(
                &old(overflow)->Some_0,
                primary.spec_store().pages(),
                primary.spec_store().file().section.count,
                leaves_of(primary),
            )
        },
    ensures
        Reporter::grew(old(reporter), final(reporter)),
        *final(overflow) == *old(overflow),
        held ==> held_up(final(reporter)) || Reporter::calm(old(reporter), final(reporter)),
        r is Ok && Reporter::quiet(old(reporter), final(reporter)) ==> exists|
            l: Seq<PageOrdinal>,
        | #[trigger] leaves::tree_verified(&*index.spec_tree(), l, *final(overflow)),
        held && r is Ok && final(reporter).spec_failure() is None ==> leaves::tree_counted(
            old(reporter),
            final(reporter),
            2 * shape_of(&*index.spec_tree()).0.rows.len() as int,
        ),
        r is Ok && Reporter::quiet(old(reporter), final(reporter)) ==> final(reporter).spec_report().pages_checked == old(reporter).spec_report().pages_checked,
        r matches Err(e) ==> index.spec_tree().walk_denied(e) || primary.walk_denied(e),
{
    let ghost r0 = *reporter;
    let ghost t = &*index.spec_tree();
    let mut label = "table `".to_owned();
    let short = short_name(table_name);
    label.append(short.as_str());
    label.append("` index `");
    let short = short_name(index.name());
    label.append(short.as_str());
    label.append("`");
    let ghost shape = if held {
        Some(shape_of(t))
    } else {
        None
    };
    proof {
        if held {
            lemma_references_held(primary, index, (*overflow)->Some_0);
        }
    }
    let walked = verify_tree(
        index.tree(),
        Some(primary),
        overflow,
        label,
        reporter,
        Ghost(Some(shape_of(primary))),
        Ghost(shape),
    );
    let ghost r1 = *reporter;
    match walked {
        Ok(_) => {},
        Err(e) => return Err(e),
    }
    if reporter.full() {
        return Ok(());
    }
    let r = scan_index(index, reporter, Ghost(held));
    proof {
        Reporter::lemma_quiet(&r0, &r1, reporter);
        assert(leaves::known_pages(Some(primary), *overflow) == *overflow);
    }
    r
}

} // verus!

//! What a clean report says of the references in an index.

use vstd::prelude::*;

use super::chain;
use super::leaves;
use super::levels;
use super::refs::{self, OverflowPages};
use super::sound;
use super::whole;
use crate::btree::Tree;
use crate::db::Database;
use crate::format::node::{self, LeafValue, NodeKind, NodeLayout};
use crate::format::pageref::{self, PageRef};
use crate::format::{PageLocalOffset, PageOrdinal, PAGE_PREFIX_LEN};
use crate::index;
use crate::model::{self, Pages, TreeShape};

verus! {

broadcast use crate::format::group_format;

/// The pages of a level of a held tree.
pub open spec fn level_pages(s: TreeShape, k: int) -> Seq<PageOrdinal> {
    Seq::new(s.levels[k].len(), |j: int| s.levels[k][j].ordinal)
}

/// A level of a held tree is a whole chain.
proof fn lemma_level_chain(t: &Tree, s: TreeShape, layout: NodeLayout, k: int)
    requires
        t.holds(s, layout),
        0 <= k < s.levels.len(),
    ensures
        levels::whole_chain(t.spec_store().pages(), level_pages(s, k)),
{
    let (e, pages) = (t.spec_encoding(), t.spec_store().pages());
    let l = level_pages(s, k);
    assert(l.len() > 0) by {
        if !s.is_hollow() {
            assert(s.tiled(k));
        }
    }
    assert forall|i: int| 0 <= i < l.len() implies pages.contains_key(#[trigger] l[i]) by {
        assert(model::node_ok(s, e, layout, pages, k, i));
    }
    assert forall|i: int| 0 <= i < l.len() - 1 implies #[trigger] sound::right_ok(pages, l, i) by {
        assert(model::node_ok(s, e, layout, pages, k, i));
    }
    assert(model::node_ok(s, e, layout, pages, k, l.len() - 1));
}

/// The levels that a pass found are those of the tree.
proof fn lemma_same_level(
    t: &Tree,
    s: TreeShape,
    layout: NodeLayout,
    found: Seq<Seq<PageOrdinal>>,
    d: int,
)
    requires
        t.holds(s, layout),
        whole::levels_of(t, found),
        0 <= d < found.len(),
    ensures
        d < s.levels.len(),
        found[d] == level_pages(s, s.levels.len() - 1 - d),
    decreases d,
{
    let (e, pages) = (t.spec_encoding(), t.spec_store().pages());
    let count = t.spec_store().file().section.count;
    let top = s.levels.len() - 1;
    if d == 0 {
        assert(found[0] =~= level_pages(s, top));
    } else {
        lemma_same_level(t, s, layout, found, d - 1);
        let k = top - (d - 1);
        let above = found[d - 1];
        assert(sound::below_ok(e, pages, count, found, d - 1));
        assert(sound::internal_ok(e, pages, count, above[0]));
        assert(model::node_ok(s, e, layout, pages, k, 0));
        assert(k > 0);
        assert(!s.is_hollow());
        assert(s.tiled(k));
        let p = pages[above[0]];
        whole::lemma_listed(pages, above, 0, 0);
        assert(node::internal_entry_at(p, 0)->Some_0.child == s.levels[k - 1][0].ordinal) by {
            assert(s.run_ok(k, 0));
        }
        assert(sound::child_list(pages, above)[0] == sound::children(p)[0]);
        if d < found.len() - 1 {
            assert(sound::below_ok(e, pages, count, found, d));
        }
        assert(sound::chain_ok(pages, found[d]));
        assert(sound::right_ok(pages, found[d], found[d].len() - 1));
        assert(levels::whole_chain(pages, found[d]));
        lemma_level_chain(t, s, layout, k - 1);
        levels::lemma_chain_unique(pages, found[d], level_pages(s, k - 1));
    }
}

/// The leaves that a pass went through are those of the tree.
pub proof fn lemma_same_leaves(
    t: &Tree,
    s: TreeShape,
    layout: NodeLayout,
    l: Seq<PageOrdinal>,
    known: Option<OverflowPages>,
)
    requires
        t.holds(s, layout),
        leaves::tree_verified(t, l, known),
    ensures
        l == level_pages(s, 0),
{
    let (e, pages) = (t.spec_encoding(), t.spec_store().pages());
    let count = t.spec_store().file().section.count;
    let depth = t.spec_store().spec_limits().max_tree_depth as int;
    let root = t.spec_root()->Some_0;
    let found = choose|found: Seq<Seq<PageOrdinal>>|
        found.last() == l && #[trigger] sound::tree_sound(e, pages, count, depth, root, found);
    assert(whole::levels_of(t, found));
    let d = found.len() - 1;
    lemma_same_level(t, s, layout, found, d);
    let k = s.levels.len() - 1 - d;
    assert(sound::leaf_ok(e, pages, count, l[0]));
    assert(model::node_ok(s, e, layout, pages, k, 0));
}

/// A reference to a row of a tree designates the row's value.
proof fn lemma_designates(t: &Tree, s: TreeShape, layout: NodeLayout, x: int, r: PageRef)
    requires
        t.holds(s, layout),
        model::row_ref(s, t.spec_store().pages(), x, r),
    ensures
        0 <= x < s.rows.len(),
        t.spec_store().pages().contains_key(r.page),
        t.spec_store().pages()[r.page].subrange(r.start.get() as int, r.start.get() + r.length)
            == s.rows[x].value,
{
    let (e, pages) = (t.spec_encoding(), t.spec_store().pages());
    let j = choose|j: int| 0 <= j < s.levels[0].len() && #[trigger] model::ref_at(s, pages, x, r, j);
    let n = s.levels[0][j];
    assert(model::node_ok(s, e, layout, pages, 0, j));
    assert(!s.is_hollow());
    assert(s.tiled(0));
    model::lemma_tiles_inside(s, 0, j);
    assert(model::value_ok(pages, pages[n.ordinal], x - n.first, s.rows[n.first + (x - n.first)].value));
    t.spec_store().lemma_pages_sound(n.ordinal);
    t.spec_store().lemma_pages_sound(r.page);
}

/// After a clean report every entry of an index refers to a row of its table.
///
/// What an entry of a secondary index stores is a reference to exactly the bytes of the value of
/// a row of that index's own table: the bytes it designates are that row's value.
pub proof fn lemma_clean_index_refers(
    db: &Database,
    i: int,
    k: int,
    s: TreeShape,
    layout: NodeLayout,
    rows: TreeShape,
    row_layout: NodeLayout,
    q: int,
)
    requires
        db.trees_sound(),
        0 <= i < db.spec_tables().len(),
        0 <= k < db.spec_tables()[i].spec_secondaries().len(),
        db.spec_tables()[i].on(db.spec_store()),
        db.spec_tables()[i].spec_secondaries()[k].spec_tree().holds(s, layout),
        db.spec_tables()[i].spec_primary().holds(rows, row_layout),
        0 <= q < s.rows.len(),
    ensures
        ({
            let pages = db.spec_store().pages();
            let raw = s.rows[q].value;
            pageref::page_ref_at(raw) matches Some(r) && exists|x: int|
                #![trigger rows.rows[x]]
                {
                    &&& 0 <= x < rows.rows.len()
                    &&& model::row_ref(rows, pages, x, r)
                    &&& pages[r.page].subrange(r.start.get() as int, r.start.get() + r.length)
                        == rows.rows[x].value
                    &&& raw.len() == 16 ==> index::referred(pages, raw) == Some(rows.rows[x].value)
                }
        }),
{
    let table = &*db.spec_tables()[i];
    let t = &*table.spec_secondaries()[k].spec_tree();
    let primary = &*table.spec_primary();
    let (e, pages) = (t.spec_encoding(), db.spec_store().pages());
    let count = db.spec_store().file().section.count;
    assert(super::table_sound(&*db.spec_tables()[i]));
    let l = choose|l: Seq<PageOrdinal>| #[trigger]
        super::part_sound(table, l, table.spec_secondaries().len() as int);
    assert(super::index_sound(primary, l, &*table.spec_secondaries()[k]));
    let (m, set) = choose|m: Seq<PageOrdinal>, set: OverflowPages| #[trigger]
        leaves::tree_verified(t, m, Some(set)) && super::remembers(&set, pages, l) && set.home()
            == *primary;
    lemma_same_leaves(t, s, layout, m, Some(set));
    lemma_same_leaves(primary, rows, row_layout, l, None);
    // Where the entry is.
    assert(!s.is_hollow());
    assert(s.tiled(0));
    let j = model::lemma_row_leaf(s, q, 0);
    let n = s.levels[0][j];
    let at = q - n.first;
    assert(m[j] == n.ordinal);
    assert(model::node_ok(s, e, layout, pages, 0, j));
    assert(leaves::leaf_checked(e, pages, count, m[j], Some(set)));
    assert(leaves::entry_checked(e, pages, count, n.ordinal, at, Some(set)));
    let raw = s.rows[q].value;
    assert(model::value_ok(pages, pages[n.ordinal], at, s.rows[n.first + at].value));
    assert(sound::entry_bytes(pages, n.ordinal, at) == raw) by {
        t.spec_store().lemma_pages_sound(n.ordinal);
    }
    assert(refs::reference_ok(pages, &set, raw));
    let r = pageref::page_ref_at(raw)->Some_0;
    let p = pages[r.page];
    let x = if node::page_count(p) > 0 {
        assert(refs::reference_home(primary, raw));
        choose|x: int| #[trigger] model::row_ref(rows, pages, x, r)
    } else {
        lemma_blob_row(primary, rows, row_layout, l, r)
    };
    lemma_designates(primary, rows, row_layout, x, r);
    assert(rows.rows[x] == rows.rows[x]);
}

/// A blob page of an entry of the leaves of a tree is the value of a row.
proof fn lemma_blob_row(
    t: &Tree,
    s: TreeShape,
    layout: NodeLayout,
    l: Seq<PageOrdinal>,
    r: PageRef,
) -> (x: int)
    requires
        t.holds(s, layout),
        l == level_pages(s, 0),
        leaves::is_overflow(
            t.spec_store().pages(),
            sound::entry_list(t.spec_store().pages(), l),
            r.page,
        ),
        r.start.get() == PAGE_PREFIX_LEN,
        r.start.get() + r.length == t.spec_store().pages()[r.page].len(),
    ensures
        model::row_ref(s, t.spec_store().pages(), x, r),
{
    let (e, pages) = (t.spec_encoding(), t.spec_store().pages());
    let list = sound::entry_list(pages, l);
    let y = choose|y: int|
        0 <= y < list.len() && leaves::overflow_at(pages, #[trigger] list[y]) == Some(r.page);
    whole::lemma_lists_len(pages, l);
    let (j, i) = whole::lemma_found(pages, l, l.len() as int, y);
    whole::lemma_listed(pages, l, j, i);
    let n = s.levels[0][j];
    assert(l[j] == n.ordinal);
    assert(model::node_ok(s, e, layout, pages, 0, j));
    let x = n.first + i;
    refs::lemma_row_key(s, e, layout, pages, t.spec_root()->Some_0, j, i);
    assert(PageLocalOffset::spec_new(r.start.get() as u32) == r.start);
    assert(model::entry_ref(pages, n.ordinal, i) == Some(r));
    assert(model::ref_at(s, pages, x, r, j));
    x
}

} // verus!

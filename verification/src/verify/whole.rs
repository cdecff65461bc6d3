//! A tree that a pass found sound is a tree that a search can rely on.
//!
//! [`sound::tree_sound`] says what a pass has looked at: levels of pages, each on one sibling
//! chain, each the children of the one above, with entries in order. A search relies on
//! [`model::tree_ok`]: rows, and pages that cut them up. The first is the second wherever the
//! pages of the tree have one layout and store the digests of their own keys.

use vstd::prelude::*;

use super::indexes;
use super::leaves;
use super::refs::OverflowPages;
use super::sound::{self, Place};
use crate::btree::{within, Tree};
use crate::db::Database;
use crate::encoding::{
    self, alike, builtin, registry, AsciiEncoding, Int64Encoding, KeyEncoding, SharedEncoding,
    UlidEncoding, Uuidv7Encoding,
};
use crate::format::node::{self, LeafValue, NodeKind, NodeLayout};
use crate::format::PageOrdinal;
use crate::model::{self, Node, Pages, Row, TreeShape};

verus! {

broadcast use crate::format::group_format;

/// Whether an encoding keeps the laws, and rebuilds keys that are its own.
pub open spec fn rebuilds(e: SharedEncoding) -> bool {
    &&& encoding::lawful(&**e.inner)
    &&& forall|d: u64|
        e.inner.exact() && (#[trigger] e.inner.rebuilt(d)) is Some ==> {
            let k = e.inner.rebuilt(d)->Some_0;
            e.inner.accepts(k) && e.inner.well_formed(k) && e.inner.digest_of(k) == d
        }
}

/// Whether every digest that an encoding takes for a key is the key's own.
pub open spec fn own_digests(e: SharedEncoding) -> bool {
    forall|k: Seq<u8>, d: u64| #[trigger]
        e.inner.admits(k, d) ==> e.inner.accepts(k) && e.inner.digest_of(k) == d
}

/// Whether the digest that a page stores for an entry is the one of the entry's key, where it
/// is one that the encoding takes for it.
pub open spec fn own_digest(e: SharedEncoding, p: Seq<u8>, i: int) -> bool {
    let k = node::entry_key_at(p, i);
    let d = node::page_digests(p)[i];
    e.inner.admits(k, d) ==> e.inner.accepts(k) && e.inner.digest_of(k) == d
}

/// Whether a page has a layout, and stores the digests of its keys where it stores keys.
pub open spec fn plain_page(e: SharedEncoding, layout: NodeLayout, p: Seq<u8>) -> bool {
    &&& node::page_layout(p) == layout
    &&& !layout.omitted_keys ==> forall|i: int|
        0 <= i < node::page_count(p) ==> #[trigger] own_digest(e, p, i)
}

/// Whether the pages of levels have one layout, which a search under the encoding can use, and
/// the values that are on pages of their own are on plain ones.
pub open spec fn plain(
    e: SharedEncoding,
    layout: NodeLayout,
    pages: Pages,
    levels: Seq<Seq<PageOrdinal>>,
) -> bool {
    &&& layout.omitted_keys ==> e.inner.exact()
    &&& forall|d: int, j: int|
        0 <= d < levels.len() && 0 <= j < levels[d].len() ==> plain_page(
            e,
            layout,
            pages[#[trigger] levels[d][j]],
        )
    &&& forall|j: int, i: int|
        0 <= j < levels.last().len() && 0 <= i < node::page_count(pages[levels.last()[j]]) ==> (
        #[trigger] node::leaf_entry_at(pages[levels.last()[j]], i) matches Some(entry) && (
        entry.value matches LeafValue::Overflow { page } ==> !node::page_layout(
            pages[page],
        ).compact_meta))
}

/// Whether every page is one that a reader accepts.
pub open spec fn readable(pages: Pages) -> bool {
    forall|o: PageOrdinal| #[trigger]
        pages.contains_key(o) ==> node::page_ok(pages[o]) && node::entries_ok(pages[o])
}

/// How many entries the first `j` pages of a level have.
pub open spec fn starts(pages: Pages, l: Seq<PageOrdinal>, j: int) -> int
    decreases j,
{
    if j <= 0 {
        0
    } else {
        starts(pages, l, j - 1) + node::page_count(pages[l[j - 1]])
    }
}

/// The pages of a level, each with the entries it has.
pub open spec fn nodes(pages: Pages, l: Seq<PageOrdinal>) -> Seq<Node> {
    Seq::new(
        l.len(),
        |j: int|
            Node {
                ordinal: l[j],
                first: starts(pages, l, j),
                count: node::page_count(pages[l[j]]) as int,
            },
    )
}

/// The row at a leaf entry.
pub open spec fn row_at(e: SharedEncoding, pages: Pages, x: Place) -> Row {
    Row {
        key: sound::leaf_key(e, pages[x.page], x.index)->Some_0,
        value: sound::entry_bytes(pages, x.page, x.index),
    }
}

/// The shape of the tree that levels are, the root first.
pub open spec fn shape(e: SharedEncoding, pages: Pages, levels: Seq<Seq<PageOrdinal>>) -> TreeShape {
    let list = sound::entry_list(pages, levels.last());
    TreeShape {
        rows: Seq::new(list.len(), |r: int| row_at(e, pages, list[r])),
        levels: Seq::new(levels.len(), |k: int| nodes(pages, levels[levels.len() - 1 - k])),
    }
}

proof fn lemma_starts_front(pages: Pages, l: Seq<PageOrdinal>, j: int)
    requires
        0 <= j < l.len(),
    ensures
        starts(pages, l.drop_last(), j) == starts(pages, l, j),
    decreases j,
{
    if j > 0 {
        lemma_starts_front(pages, l, j - 1);
    }
}

/// The entries of a level are the entries of its pages, one page after the other.
pub proof fn lemma_lists_len(pages: Pages, l: Seq<PageOrdinal>)
    ensures
        sound::entry_list(pages, l).len() == starts(pages, l, l.len() as int),
        sound::child_list(pages, l).len() == starts(pages, l, l.len() as int),
    decreases l.len(),
{
    if l.len() > 0 {
        lemma_lists_len(pages, l.drop_last());
        lemma_starts_front(pages, l, l.len() - 1);
    }
}

/// Where the entries of a page are among those of its level.
pub proof fn lemma_listed(pages: Pages, l: Seq<PageOrdinal>, j: int, i: int)
    requires
        0 <= j < l.len(),
        0 <= i < node::page_count(pages[l[j]]),
    ensures
        0 <= starts(pages, l, j),
        starts(pages, l, j) + i < starts(pages, l, l.len() as int),
        sound::entry_list(pages, l)[starts(pages, l, j) + i] == (Place { page: l[j], index: i }),
        sound::child_list(pages, l)[starts(pages, l, j) + i] == sound::children(pages[l[j]])[i],
    decreases l.len(),
{
    let front = l.drop_last();
    lemma_lists_len(pages, l);
    lemma_lists_len(pages, front);
    lemma_starts_front(pages, l, j);
    lemma_starts_front(pages, l, l.len() - 1);
    lemma_starts_positive(pages, l, j);
    if j < l.len() - 1 {
        lemma_listed(pages, front, j, i);
    }
}

proof fn lemma_starts_positive(pages: Pages, l: Seq<PageOrdinal>, j: int)
    ensures
        0 <= starts(pages, l, j),
    decreases j,
{
    if j > 0 {
        lemma_starts_positive(pages, l, j - 1);
    }
}

/// Which page of a level an entry is on.
pub proof fn lemma_found(pages: Pages, l: Seq<PageOrdinal>, n: int, x: int) -> (r: (int, int))
    requires
        0 <= n <= l.len(),
        0 <= x < starts(pages, l, n),
    ensures
        0 <= r.0 < n,
        0 <= r.1 < node::page_count(pages[l[r.0]]),
        x == starts(pages, l, r.0) + r.1,
    decreases n,
{
    if x < starts(pages, l, n - 1) {
        lemma_found(pages, l, n - 1, x)
    } else {
        (n - 1, x - starts(pages, l, n - 1))
    }
}

/// What is known of the levels that a proof below is about.
pub open spec fn given(
    e: SharedEncoding,
    layout: NodeLayout,
    pages: Pages,
    count: int,
    depth: int,
    root: PageOrdinal,
    levels: Seq<Seq<PageOrdinal>>,
) -> bool {
    &&& rebuilds(e)
    &&& readable(pages)
    &&& plain(e, layout, pages, levels)
    &&& sound::tree_sound(e, pages, count, depth, root, levels)
    &&& levels.len() > 1 || node::page_count(pages[root]) > 0
}

/// Every page of the levels holds entries, and has the layout.
proof fn lemma_page(
    e: SharedEncoding,
    layout: NodeLayout,
    pages: Pages,
    count: int,
    depth: int,
    root: PageOrdinal,
    levels: Seq<Seq<PageOrdinal>>,
    d: int,
    j: int,
)
    requires
        given(e, layout, pages, count, depth, root, levels),
        0 <= d < levels.len(),
        0 <= j < levels[d].len(),
    ensures
        pages.contains_key(levels[d][j]),
        node::page_ok(pages[levels[d][j]]),
        node::entries_ok(pages[levels[d][j]]),
        node::page_count(pages[levels[d][j]]) > 0,
        node::page_layout(pages[levels[d][j]]) == layout,
        node::page_kind(pages[levels[d][j]]) == (if d == levels.len() - 1 {
            NodeKind::Leaf
        } else {
            NodeKind::Internal
        }),
        within::digests_sound(e, pages[levels[d][j]]),
        plain_page(e, layout, pages[levels[d][j]]),
        sound::left_ok(pages, levels[d], j),
        sound::right_ok(pages, levels[d], j),
{
    let o = levels[d][j];
    if d < levels.len() - 1 {
        assert(sound::below_ok(e, pages, count, levels, d));
        assert(sound::internal_ok(e, pages, count, levels[d][j]));
    } else {
        assert(sound::leaf_ok(e, pages, count, levels.last()[j]));
        if d == 0 {
            assert(o == root);
        } else {
            // It is a child, and a child has a first entry.
            assert(sound::below_ok(e, pages, count, levels, d - 1));
            let above = levels[d - 1];
            lemma_lists_len(pages, above);
            let (a, i) = lemma_found(pages, above, above.len() as int, j);
            lemma_listed(pages, above, a, i);
            assert(sound::internal_ok(e, pages, count, above[a]));
            assert(sound::child_ok(e, pages, count, above[a], i));
        }
    }
}

/// The first key at or below a page is the key of its first entry.
proof fn lemma_first_key(
    e: SharedEncoding,
    layout: NodeLayout,
    pages: Pages,
    count: int,
    depth: int,
    root: PageOrdinal,
    levels: Seq<Seq<PageOrdinal>>,
    k: int,
    j: int,
)
    requires
        given(e, layout, pages, count, depth, root, levels),
        0 <= k < levels.len(),
        0 <= j < levels[levels.len() - 1 - k].len(),
    ensures
        sound::leaf_key(e, pages[levels[levels.len() - 1 - k][j]], 0) == Some(
            shape(e, pages, levels).first_key(k, j),
        ),
    decreases k,
{
    let s = shape(e, pages, levels);
    let d = levels.len() - 1 - k;
    let l = levels[d];
    lemma_page(e, layout, pages, count, depth, root, levels, d, j);
    lemma_listed(pages, l, j, 0);
    lemma_lists_len(pages, l);
    assert(s.levels[k] == nodes(pages, l));
    if k == 0 {
        assert(sound::leaf_ok(e, pages, count, levels.last()[j]));
        assert(sound::entry_ok(e, pages, count, l[j], 0));
        assert(s.rows[starts(pages, l, j)] == row_at(e, pages, Place { page: l[j], index: 0 }));
    } else {
        lemma_entry_key(e, layout, pages, count, depth, root, levels, k, j, 0);
    }
}

/// The key of an entry of an internal page is the first key below it.
proof fn lemma_entry_key(
    e: SharedEncoding,
    layout: NodeLayout,
    pages: Pages,
    count: int,
    depth: int,
    root: PageOrdinal,
    levels: Seq<Seq<PageOrdinal>>,
    k: int,
    j: int,
    i: int,
)
    requires
        given(e, layout, pages, count, depth, root, levels),
        0 < k < levels.len(),
        0 <= j < levels[levels.len() - 1 - k].len(),
        0 <= i < node::page_count(pages[levels[levels.len() - 1 - k][j]]),
    ensures
        ({
            let l = levels[levels.len() - 1 - k];
            let x = starts(pages, l, j) + i;
            &&& 0 <= x < levels[levels.len() - k].len()
            &&& levels[levels.len() - k][x] == sound::children(pages[l[j]])[i]
            &&& sound::leaf_key(e, pages[l[j]], i) == Some(
                shape(e, pages, levels).first_key(k - 1, x),
            )
        }),
    decreases k, 0int,
{
    let d = levels.len() - 1 - k;
    let l = levels[d];
    let x = starts(pages, l, j) + i;
    lemma_page(e, layout, pages, count, depth, root, levels, d, j);
    lemma_listed(pages, l, j, i);
    lemma_lists_len(pages, l);
    assert(sound::below_ok(e, pages, count, levels, d));
    assert(sound::internal_ok(e, pages, count, l[j]));
    assert(sound::child_ok(e, pages, count, l[j], i));
    assert(levels[d + 1][x] == sound::children(pages[l[j]])[i]);
    lemma_page(e, layout, pages, count, depth, root, levels, d + 1, x);
    lemma_first_key(e, layout, pages, count, depth, root, levels, k - 1, x);
}

/// What the row at a leaf entry is.
proof fn lemma_row(
    e: SharedEncoding,
    layout: NodeLayout,
    pages: Pages,
    count: int,
    depth: int,
    root: PageOrdinal,
    levels: Seq<Seq<PageOrdinal>>,
    j: int,
    i: int,
)
    requires
        given(e, layout, pages, count, depth, root, levels),
        0 <= j < levels.last().len(),
        0 <= i < node::page_count(pages[levels.last()[j]]),
    ensures
        ({
            let l = levels.last();
            let r = starts(pages, l, j) + i;
            let rows = shape(e, pages, levels).rows;
            &&& 0 <= r < rows.len()
            &&& rows[r] == row_at(e, pages, Place { page: l[j], index: i })
            &&& sound::leaf_key(e, pages[l[j]], i) == Some(rows[r].key)
            &&& e.inner.accepts(rows[r].key)
            &&& e.inner.well_formed(rows[r].key)
            &&& e.inner.digest_of(rows[r].key) == node::page_digests(pages[l[j]])[i]
        }),
{
    let l = levels.last();
    let p = pages[l[j]];
    lemma_page(e, layout, pages, count, depth, root, levels, levels.len() - 1, j);
    lemma_listed(pages, l, j, i);
    lemma_lists_len(pages, l);
    assert(sound::leaf_ok(e, pages, count, l[j]));
    assert(sound::entry_ok(e, pages, count, l[j], i));
    if !layout.omitted_keys {
        assert(within::entry_sound(e, p, i));
        assert(own_digest(e, p, i));
    }
}

/// The rows ascend.
proof fn lemma_rows(
    e: SharedEncoding,
    layout: NodeLayout,
    pages: Pages,
    count: int,
    depth: int,
    root: PageOrdinal,
    levels: Seq<Seq<PageOrdinal>>,
)
    requires
        given(e, layout, pages, count, depth, root, levels),
    ensures
        model::sorted_rows(e, shape(e, pages, levels).rows),
{
    let l = levels.last();
    let list = sound::entry_list(pages, l);
    let rows = shape(e, pages, levels).rows;
    lemma_lists_len(pages, l);
    assert forall|r: int| 0 <= r < rows.len() implies e.inner.accepts((#[trigger] rows[r]).key)
        && e.inner.well_formed(rows[r].key) by {
        let (j, i) = lemma_found(pages, l, l.len() as int, r);
        lemma_row(e, layout, pages, count, depth, root, levels, j, i);
    }
    assert forall|a: int, b: int| 0 <= a < b < rows.len() implies e.inner.sign(
        (#[trigger] rows[a]).key,
        (#[trigger] rows[b]).key,
    ) < 0 by {
        lemma_rows_ascend(e, layout, pages, count, depth, root, levels, a, b);
    }
}

proof fn lemma_rows_ascend(
    e: SharedEncoding,
    layout: NodeLayout,
    pages: Pages,
    count: int,
    depth: int,
    root: PageOrdinal,
    levels: Seq<Seq<PageOrdinal>>,
    a: int,
    b: int,
)
    requires
        given(e, layout, pages, count, depth, root, levels),
        0 <= a < b < shape(e, pages, levels).rows.len(),
        forall|r: int|
            0 <= r < shape(e, pages, levels).rows.len() ==> e.inner.accepts(
                (#[trigger] shape(e, pages, levels).rows[r]).key,
            ),
    ensures
        e.inner.sign(
            shape(e, pages, levels).rows[a].key,
            shape(e, pages, levels).rows[b].key,
        ) < 0,
    decreases b - a,
{
    let l = levels.last();
    let list = sound::entry_list(pages, l);
    let rows = shape(e, pages, levels).rows;
    lemma_lists_len(pages, l);
    let (j, i) = lemma_found(pages, l, l.len() as int, b - 1);
    lemma_row(e, layout, pages, count, depth, root, levels, j, i);
    lemma_page(e, layout, pages, count, depth, root, levels, levels.len() - 1, j);
    let (m, n) = lemma_found(pages, l, l.len() as int, b);
    lemma_row(e, layout, pages, count, depth, root, levels, m, n);
    lemma_page(e, layout, pages, count, depth, root, levels, levels.len() - 1, m);
    lemma_listed(pages, l, j, i);
    lemma_listed(pages, l, m, n);
    assert(sound::entry_step(e, pages, list, b));
    assert(e.inner.sign(rows[b - 1].key, rows[b].key) < 0);
    if a < b - 1 {
        lemma_rows_ascend(e, layout, pages, count, depth, root, levels, a, b - 1);
        let (x, y, z) = (rows[a].key, rows[b - 1].key, rows[b].key);
        assert(e.inner.accepts(rows[a].key) && e.inner.accepts(rows[b - 1].key) && e.inner.accepts(
            rows[b].key,
        ));
        assert(e.inner.sign(x, y) < 0 && e.inner.sign(y, z) < 0);
    }
}

/// Each page is the one the shape says.
proof fn lemma_node(
    e: SharedEncoding,
    layout: NodeLayout,
    pages: Pages,
    count: int,
    depth: int,
    root: PageOrdinal,
    levels: Seq<Seq<PageOrdinal>>,
    k: int,
    j: int,
)
    requires
        given(e, layout, pages, count, depth, root, levels),
        0 <= k < levels.len(),
        0 <= j < levels[levels.len() - 1 - k].len(),
    ensures
        model::node_ok(shape(e, pages, levels), e, layout, pages, k, j),
{
    let s = shape(e, pages, levels);
    let d = levels.len() - 1 - k;
    let l = levels[d];
    let p = pages[l[j]];
    let ds = node::page_digests(p);
    let keys = model::node_keys(s, k, j);
    lemma_page(e, layout, pages, count, depth, root, levels, d, j);
    assert(s.levels[k] == nodes(pages, l));
    assert forall|i: int| 0 <= i < keys.len() implies ds[i] == e.inner.digest_of(
        #[trigger] keys[i],
    ) && sound::leaf_key(e, p, i) == Some(keys[i]) by {
        if k == 0 {
            lemma_row(e, layout, pages, count, depth, root, levels, j, i);
        } else {
            lemma_entry_key(e, layout, pages, count, depth, root, levels, k, j, i);
            if !layout.omitted_keys {
                assert(within::entry_sound(e, p, i));
                assert(own_digest(e, p, i));
            }
        }
    }
    node::lemma_digest_count(p);
    assert(model::keys_ok(e, layout, p, keys)) by {
        assert forall|i: int| 0 <= i < keys.len() implies #[trigger] ds[i] == e.inner.digest_of(
            keys[i],
        ) by {
            assert(keys[i] == keys[i]);
        }
        if !layout.omitted_keys {
            assert forall|i: int| 0 <= i < keys.len() implies #[trigger] node::entry_key_at(p, i)
                == keys[i] by {}
        }
    }
    if k == 0 {
        assert forall|i: int| 0 <= i < keys.len() implies #[trigger] model::value_ok(
            pages,
            p,
            i,
            s.rows[starts(pages, l, j) + i].value,
        ) by {
            lemma_row(e, layout, pages, count, depth, root, levels, j, i);
            assert(sound::leaf_ok(e, pages, count, l[j]));
            assert(sound::entry_ok(e, pages, count, l[j], i));
            assert(node::entry_ok(p, i));
            if let LeafValue::Overflow { page } = node::leaf_entry_at(p, i)->Some_0.value {
                assert(sound::is_blob(pages, count, page));
                assert(node::leaf_entry_at(pages[levels.last()[j]], i) is Some);
            }
        }
    } else {
        assert forall|i: int| 0 <= i < keys.len() implies (#[trigger] node::internal_entry_at(
            p,
            i,
        ) matches Some(entry) && entry.child == s.levels[k - 1][starts(pages, l, j) + i].ordinal) by {
            lemma_entry_key(e, layout, pages, count, depth, root, levels, k, j, i);
            assert(node::entry_ok(p, i));
            assert(s.levels[k - 1] == nodes(pages, levels[d + 1]));
        }
    }
}

/// The levels cut up what is below them, down to the rows.
proof fn lemma_is_tree(
    e: SharedEncoding,
    layout: NodeLayout,
    pages: Pages,
    count: int,
    depth: int,
    root: PageOrdinal,
    levels: Seq<Seq<PageOrdinal>>,
)
    requires
        given(e, layout, pages, count, depth, root, levels),
    ensures
        shape(e, pages, levels).is_tree(),
        shape(e, pages, levels).root() == root,
{
    let s = shape(e, pages, levels);
    let n = levels.len() as int;
    assert(s.levels.last() == nodes(pages, levels[0]));
    assert forall|k: int| 0 <= k < n implies #[trigger] s.tiled(k) by {
        let d = n - 1 - k;
        let l = levels[d];
        assert(s.levels[k] == nodes(pages, l));
        lemma_lists_len(pages, l);
        if d < n - 1 {
            assert(sound::below_ok(e, pages, count, levels, d));
            assert(s.levels[k - 1] == nodes(pages, levels[d + 1]));
        } else {
            assert(l == levels.last());
        }
        assert(s.below(k) == starts(pages, l, l.len() as int));
        assert forall|j: int| 0 <= j < l.len() implies #[trigger] s.run_ok(k, j) by {
            lemma_page(e, layout, pages, count, depth, root, levels, d, j);
            assert(starts(pages, l, j + 1) == starts(pages, l, j) + node::page_count(pages[l[j]]));
        }
    }
}

/// A root that is an empty leaf is a tree without rows.
proof fn lemma_hollow(
    e: SharedEncoding,
    layout: NodeLayout,
    pages: Pages,
    count: int,
    depth: int,
    root: PageOrdinal,
    levels: Seq<Seq<PageOrdinal>>,
)
    requires
        rebuilds(e),
        readable(pages),
        plain(e, layout, pages, levels),
        sound::tree_sound(e, pages, count, depth, root, levels),
        levels.len() == 1,
        node::page_count(pages[root]) == 0,
    ensures
        model::tree_ok(shape(e, pages, levels), e, layout, pages, root),
{
    let s = shape(e, pages, levels);
    let l = levels[0];
    let p = pages[root];
    lemma_lists_len(pages, l);
    assert(starts(pages, l, 1) == starts(pages, l, 0) + node::page_count(pages[l[0]]));
    assert(s.levels[0] == nodes(pages, l));
    assert(s.rows.len() == 0);
    assert(s.is_hollow());
    assert(sound::leaf_ok(e, pages, count, l[0]));
    assert(sound::left_ok(pages, l, 0));
    assert(sound::right_ok(pages, l, 0));
    assert(plain_page(e, layout, pages[levels[0][0]]));
    let keys = model::node_keys(s, 0, 0);
    assert(keys.len() == 0);
    assert(model::keys_ok(e, layout, p, keys));
    assert(model::node_ok(s, e, layout, pages, 0, 0));
}

/// Pages that a pass found sound hold a tree, the rows of which are the leaf entries.
pub proof fn lemma_sound_is_held(
    e: SharedEncoding,
    layout: NodeLayout,
    pages: Pages,
    count: int,
    depth: int,
    root: PageOrdinal,
    levels: Seq<Seq<PageOrdinal>>,
)
    requires
        rebuilds(e),
        readable(pages),
        plain(e, layout, pages, levels),
        sound::tree_sound(e, pages, count, depth, root, levels),
    ensures
        model::tree_ok(shape(e, pages, levels), e, layout, pages, root),
{
    let s = shape(e, pages, levels);
    if levels.len() == 1 && node::page_count(pages[root]) == 0 {
        lemma_hollow(e, layout, pages, count, depth, root, levels);
    } else {
        lemma_is_tree(e, layout, pages, count, depth, root, levels);
        lemma_rows(e, layout, pages, count, depth, root, levels);
        lemma_page(e, layout, pages, count, depth, root, levels, 0, 0);
        assert forall|k: int, j: int|
            0 <= k < s.levels.len() && 0 <= j < s.levels[k].len() implies #[trigger] model::node_ok(
            s,
            e,
            layout,
            pages,
            k,
            j,
        ) by {
            lemma_node(e, layout, pages, count, depth, root, levels, k, j);
        }
    }
}

/// Whether levels are those that a pass found below the root of a tree.
pub open spec fn levels_of(t: &Tree, levels: Seq<Seq<PageOrdinal>>) -> bool {
    t.spec_root() is Some && sound::tree_sound(
        t.spec_encoding(),
        t.spec_store().pages(),
        t.spec_store().file().section.count,
        t.spec_store().spec_limits().max_tree_depth as int,
        t.spec_root()->Some_0,
        levels,
    )
}

/// Whether the pages below the root of a tree have one layout and store their keys' own digests.
pub open spec fn plain_tree(t: &Tree, layout: NodeLayout) -> bool {
    &&& rebuilds(t.spec_encoding())
    &&& forall|levels: Seq<Seq<PageOrdinal>>| #[trigger]
        levels_of(t, levels) ==> plain(
            t.spec_encoding(),
            layout,
            t.spec_store().pages(),
            levels,
        )
}

/// A tree that a pass found sound is one that lookups, scans and counts rely on.
pub proof fn lemma_clean_tree_is_held(
    t: &Tree,
    l: Seq<PageOrdinal>,
    known: Option<OverflowPages>,
    layout: NodeLayout,
)
    requires
        leaves::tree_verified(t, l, known),
        plain_tree(t, layout),
    ensures
        t.spec_root() is None || indexes::is_held(t),
{
    if let Some(root) = t.spec_root() {
        let (e, pages) = (t.spec_encoding(), t.spec_store().pages());
        let count = t.spec_store().file().section.count;
        let depth = t.spec_store().spec_limits().max_tree_depth as int;
        let levels = choose|levels: Seq<Seq<PageOrdinal>>|
            levels.last() == l && #[trigger] sound::tree_sound(e, pages, count, depth, root, levels);
        assert(levels_of(t, levels));
        lemma_sound_is_held(e, layout, pages, count, depth, root, levels);
        let s = shape(e, pages, levels);
        assert(t.holds((s, layout).0, (s, layout).1));
    }
}

/// After a clean report every table has the tree that its lookups, scans and counts rely on, or
/// none at all: what the pass looked at is what reading depends on.
pub proof fn lemma_clean_table_is_held(db: &Database, i: int, layout: NodeLayout)
    requires
        db.trees_sound(),
        0 <= i < db.spec_tables().len(),
        plain_tree(&*db.spec_tables()[i].spec_primary(), layout),
    ensures
        ({
            let t = &*db.spec_tables()[i].spec_primary();
            t.spec_root() is None || indexes::is_held(t)
        }),
{
    let table = &*db.spec_tables()[i];
    assert(super::table_sound(&*db.spec_tables()[i]));
    let l = choose|l: Seq<PageOrdinal>| #[trigger]
        super::part_sound(table, l, table.spec_secondaries().len() as int);
    lemma_clean_tree_is_held(&*table.spec_primary(), l, None, layout);
}

/// The same of every secondary index.
pub proof fn lemma_clean_index_is_held(db: &Database, i: int, k: int, layout: NodeLayout)
    requires
        db.trees_sound(),
        0 <= i < db.spec_tables().len(),
        0 <= k < db.spec_tables()[i].spec_secondaries().len(),
        plain_tree(&*db.spec_tables()[i].spec_secondaries()[k].spec_tree(), layout),
    ensures
        ({
            let t = &*db.spec_tables()[i].spec_secondaries()[k].spec_tree();
            t.spec_root() is None || indexes::is_held(t)
        }),
{
    let table = &*db.spec_tables()[i];
    assert(super::table_sound(&*db.spec_tables()[i]));
    let l = choose|l: Seq<PageOrdinal>| #[trigger]
        super::part_sound(table, l, table.spec_secondaries().len() as int);
    let index = &*table.spec_secondaries()[k];
    assert(super::index_sound(&*table.spec_primary(), l, &*table.spec_secondaries()[k]));
    let (m, set) = choose|m: Seq<PageOrdinal>, set: OverflowPages| #[trigger]
        leaves::tree_verified(&*index.spec_tree(), m, Some(set)) && super::remembers(
            &set,
            table.spec_primary().spec_store().pages(),
            l,
        );
    lemma_clean_tree_is_held(&*index.spec_tree(), m, Some(set), layout);
}

/// An encoding that behaves like one that rebuilds its own keys and takes its own digests does
/// both.
proof fn lemma_takes_after<E: KeyEncoding>(b: E, e: SharedEncoding)
    requires
        e.behaves_like(b),
        encoding::lawful(&b),
        forall|k: Seq<u8>, d: u64| #[trigger]
            b.admits(k, d) ==> b.accepts(k) && b.digest_of(k) == d,
        forall|d: u64|
            b.exact() && (#[trigger] b.rebuilt(d)) is Some ==> {
                let k = b.rebuilt(d)->Some_0;
                b.accepts(k) && b.well_formed(k) && b.digest_of(k) == d
            },
    ensures
        rebuilds(e),
        own_digests(e),
{
    alike::lemma_behaves(e, b);
    alike::lemma_lawful(&b, &**e.inner);
    assert forall|k: Seq<u8>, d: u64| #[trigger] e.inner.admits(k, d) implies e.inner.accepts(k)
        && e.inner.digest_of(k) == d by {
        assert(b.admits(k, d));
    }
    assert forall|d: u64| e.inner.exact() && (#[trigger] e.inner.rebuilt(d)) is Some implies {
        let k = e.inner.rebuilt(d)->Some_0;
        e.inner.accepts(k) && e.inner.well_formed(k) && e.inner.digest_of(k) == d
    } by {
        assert(b.rebuilt(d) is Some);
    }
}

/// The built-in encodings rebuild their own keys and take their own digests, so that for a tree
/// of theirs only the layout of its pages is left to ask for.
pub proof fn lemma_builtin_plain(id: Seq<char>, e: SharedEncoding)
    requires
        registry::is_builtin(id),
        registry::builtin_behaviour(id, e),
    ensures
        rebuilds(e),
        own_digests(e),
{
    if id == "i64"@ {
        builtin::lemma_int64_lawful();
        lemma_takes_after(Int64Encoding, e);
    } else if id == "ascii"@ {
        builtin::lemma_ascii_lawful();
        lemma_takes_after(AsciiEncoding, e);
    } else if id == "uuidv7"@ {
        builtin::lemma_uuidv7_lawful();
        lemma_takes_after(Uuidv7Encoding, e);
    } else {
        builtin::lemma_ulid_lawful();
        lemma_takes_after(UlidEncoding, e);
    }
}

} // verus!

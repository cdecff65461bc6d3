//! Where a search is in a tree.

use vstd::prelude::*;

use super::within::{self, SearchOp};
use crate::encoding::{KeyEncoding, SharedEncoding};
use crate::format::node::{self, NodeKind, NodeLayout};
use crate::format::PageOrdinal;
use crate::model::{self, Pages, TreeShape};

verus! {

broadcast use crate::format::group_format;

/// Whether a page is leaf `j`.
pub open spec fn leaf_at(s: TreeShape, o: PageOrdinal, j: int) -> bool {
    0 <= j < s.levels[0].len() && s.levels[0][j].ordinal == o
}

/// Whether a page is where a search for a key is after `d` steps down.
pub open spec fn node_on_path(
    s: TreeShape,
    e: SharedEncoding,
    key: Seq<u8>,
    d: int,
    o: PageOrdinal,
    j: int,
) -> bool {
    let k = s.levels.len() - 1 - d;
    &&& 0 <= k
    &&& 0 <= j < s.levels[k].len()
    &&& s.levels[k][j].ordinal == o
    &&& s.is_hollow() || model::home(s, e, k, j, key)
}

/// Whether a page is where a search for a key is after `d` steps down.
pub open spec fn on_path(
    s: TreeShape,
    e: SharedEncoding,
    key: Seq<u8>,
    d: int,
    o: PageOrdinal,
) -> bool {
    exists|j: int| #[trigger] node_on_path(s, e, key, d, o, j)
}

/// A search starts at the root.
pub proof fn lemma_path_starts(s: TreeShape, e: SharedEncoding, key: Seq<u8>)
    requires
        s.is_tree(),
    ensures
        on_path(s, e, key, 0, s.root()),
{
    assert(node_on_path(s, e, key, 0, s.root(), 0));
}

/// The page of a node stores the node's keys, in order.
pub proof fn lemma_node_ordered(
    s: TreeShape,
    e: SharedEncoding,
    layout: NodeLayout,
    pages: Pages,
    root: PageOrdinal,
    k: int,
    j: int,
)
    requires
        model::tree_ok(s, e, layout, pages, root),
        0 <= k < s.levels.len(),
        0 <= j < s.levels[k].len(),
    ensures
        pages.contains_key(s.levels[k][j].ordinal),
        within::ordered(e, layout, pages[s.levels[k][j].ordinal], model::node_keys(s, k, j)),
        within::digests_sound(e, pages[s.levels[k][j].ordinal]),
        node::page_kind(pages[s.levels[k][j].ordinal]) == (if k == 0 {
            NodeKind::Leaf
        } else {
            NodeKind::Internal
        }),
        !s.is_hollow() ==> s.levels[k][j].count >= 1 && 0 <= s.levels[k][j].first
            && s.levels[k][j].first + s.levels[k][j].count <= s.below(k),
        s.levels[k][j].count >= 0,
        node::page_count(pages[s.levels[k][j].ordinal]) == s.levels[k][j].count,
{
    assert(model::node_ok(s, e, layout, pages, k, j));
    model::lemma_node_keys_ascend(s, e, k, j);
    within::lemma_ordered_sound(
        e,
        layout,
        pages[s.levels[k][j].ordinal],
        model::node_keys(s, k, j),
    );
    if !s.is_hollow() {
        assert(s.tiled(k));
        model::lemma_tiles_inside(s, k, j);
    }
}

/// No page of a tree is its own child.
pub proof fn lemma_no_self_child(
    s: TreeShape,
    e: SharedEncoding,
    layout: NodeLayout,
    pages: Pages,
    root: PageOrdinal,
    k: int,
    j: int,
    c: int,
)
    requires
        model::tree_ok(s, e, layout, pages, root),
        0 < k < s.levels.len(),
        0 <= j < s.levels[k].len(),
        0 <= c < s.levels[k][j].count,
    ensures
        s.levels[k - 1][s.levels[k][j].first + c].ordinal != s.levels[k][j].ordinal,
    decreases k,
{
    let n = s.levels[k][j];
    let below = n.first + c;
    assert(!s.is_hollow());
    lemma_node_ordered(s, e, layout, pages, root, k, j);
    assert(model::node_ok(s, e, layout, pages, k, j));
    if s.levels[k - 1][below].ordinal == n.ordinal {
        let m = s.levels[k - 1][below];
        lemma_node_ordered(s, e, layout, pages, root, k - 1, below);
        assert(model::node_ok(s, e, layout, pages, k - 1, below));
        if k - 1 > 0 {
            // The same page, so the same children.
            let p = pages[n.ordinal];
            assert(node::internal_entry_at(p, c) is Some);
            assert(s.levels[k - 2][m.first + c].ordinal == s.levels[k - 1][below].ordinal);
            lemma_no_self_child(s, e, layout, pages, root, k - 1, below, c);
        }
    }
}

/// One step down from a page on the path is on the path.
pub proof fn lemma_path_step(
    s: TreeShape,
    e: SharedEncoding,
    layout: NodeLayout,
    pages: Pages,
    root: PageOrdinal,
    key: Seq<u8>,
    d: int,
    o: PageOrdinal,
    c: int,
)
    requires
        model::tree_ok(s, e, layout, pages, root),
        e.inner.accepts(key),
        on_path(s, e, key, d, o),
        0 <= d,
        node::page_kind(pages[o]) == NodeKind::Internal,
        forall|keys: Seq<Seq<u8>>|
            #[trigger] within::ordered(e, layout, pages[o], keys) ==> within::is_descent(
                e,
                keys,
                key,
                c,
            ),
    ensures
        node::internal_entry_at(pages[o], c) matches Some(entry) && entry.child != o && on_path(
            s,
            e,
            key,
            d + 1,
            entry.child,
        ),
{
    let j = choose|j: int| #[trigger] node_on_path(s, e, key, d, o, j);
    let k = s.levels.len() - 1 - d;
    lemma_node_ordered(s, e, layout, pages, root, k, j);
    assert(k > 0);
    assert(!s.is_hollow());
    assert(model::node_ok(s, e, layout, pages, k, j));
    let keys = model::node_keys(s, k, j);
    assert(within::is_descent(e, keys, key, c));
    model::lemma_descend(s, e, k, j, key, c);
    lemma_no_self_child(s, e, layout, pages, root, k, j, c);
    let entry = node::internal_entry_at(pages[o], c)->Some_0;
    assert(entry.child == s.levels[k - 1][s.levels[k][j].first + c].ordinal);
    assert(node_on_path(s, e, key, d + 1, entry.child, s.levels[k][j].first + c));
}

/// Whether a page is at the left or right edge of a tree, `d` steps down.
pub open spec fn on_edge(s: TreeShape, left: bool, d: int, o: PageOrdinal) -> bool {
    let k = s.levels.len() - 1 - d;
    &&& 0 <= k
    &&& o == (if left {
        s.levels[k][0].ordinal
    } else {
        s.levels[k].last().ordinal
    })
}

/// One step down an edge is on the edge.
pub proof fn lemma_edge_step(
    s: TreeShape,
    e: SharedEncoding,
    layout: NodeLayout,
    pages: Pages,
    root: PageOrdinal,
    left: bool,
    d: int,
    o: PageOrdinal,
)
    requires
        model::tree_ok(s, e, layout, pages, root),
        on_edge(s, left, d, o),
        0 <= d,
        node::page_kind(pages[o]) == NodeKind::Internal,
    ensures
        node::page_count(pages[o]) > 0,
        ({
            let c = if left {
                0
            } else {
                node::page_count(pages[o]) - 1
            };
            node::internal_entry_at(pages[o], c) matches Some(entry) && entry.child != o && on_edge(
                s,
                left,
                d + 1,
                entry.child,
            )
        }),
{
    let k = s.levels.len() - 1 - d;
    lemma_levels_filled(s, k);
    let j = if left {
        0
    } else {
        s.levels[k].len() - 1
    };
    lemma_node_ordered(s, e, layout, pages, root, k, j);
    assert(k > 0);
    assert(!s.is_hollow());
    assert(s.tiled(k));
    assert(model::node_ok(s, e, layout, pages, k, j));
    let n = s.levels[k][j];
    let c = if left {
        0
    } else {
        n.count - 1
    };
    lemma_no_self_child(s, e, layout, pages, root, k, j, c);
    assert(node::internal_entry_at(pages[o], c) is Some);
    model::lemma_tiles_inside(s, k, j);
    assert(n.first + c == (if left {
        0
    } else {
        s.levels[k - 1].len() - 1
    }));
}

/// Every level has a page.
pub proof fn lemma_levels_filled(s: TreeShape, k: int)
    requires
        s.is_tree(),
        0 <= k < s.levels.len(),
    ensures
        s.levels[k].len() > 0,
{
    if !s.is_hollow() {
        assert(s.tiled(k));
    }
}

/// Two leaves are two pages.
pub proof fn lemma_leaves_apart(
    s: TreeShape,
    e: SharedEncoding,
    layout: NodeLayout,
    pages: Pages,
    root: PageOrdinal,
    a: int,
    b: int,
)
    requires
        model::tree_ok(s, e, layout, pages, root),
        0 <= a < b < s.levels[0].len(),
    ensures
        s.levels[0][a].ordinal != s.levels[0][b].ordinal,
    decreases s.levels[0].len() - b,
{
    assert(model::node_ok(s, e, layout, pages, 0, a));
    assert(model::node_ok(s, e, layout, pages, 0, b));
    if s.levels[0][a].ordinal == s.levels[0][b].ordinal {
        if b + 1 < s.levels[0].len() {
            lemma_leaves_apart(s, e, layout, pages, root, a + 1, b + 1);
        }
    }
}

/// A tree has no more leaves than there are pages.
pub proof fn lemma_leaf_count(
    s: TreeShape,
    e: SharedEncoding,
    layout: NodeLayout,
    pages: Pages,
    root: PageOrdinal,
    count: int,
)
    requires
        model::tree_ok(s, e, layout, pages, root),
        forall|o: PageOrdinal| #[trigger] pages.contains_key(o) ==> o.get() < count,
        0 <= count,
    ensures
        s.levels[0].len() <= count,
{
    let l = s.levels[0];
    let numbers = Seq::new(l.len(), |i: int| l[i].ordinal.get() as int);
    assert forall|i: int, j: int| 0 <= i < numbers.len() && 0 <= j < numbers.len() && i != j implies numbers[i]
        != numbers[j] by {
        if i < j {
            lemma_leaves_apart(s, e, layout, pages, root, i, j);
        } else {
            lemma_leaves_apart(s, e, layout, pages, root, j, i);
        }
        assert(PageOrdinal::spec_new(l[i].ordinal.get()) == l[i].ordinal);
        assert(PageOrdinal::spec_new(l[j].ordinal.get()) == l[j].ordinal);
    }
    assert(numbers.no_duplicates());
    numbers.unique_seq_to_set();
    let all = vstd::set_lib::set_int_range(0, count);
    vstd::set_lib::lemma_int_range(0, count);
    assert(numbers.to_set().subset_of(all)) by {
        assert forall|x: int| numbers.to_set().contains(x) implies all.contains(x) by {
            let i = choose|i: int| 0 <= i < numbers.len() && numbers[i] == x;
            assert(model::node_ok(s, e, layout, pages, 0, i));
            assert(pages.contains_key(l[i].ordinal));
        }
    }
    vstd::set_lib::lemma_len_subset(numbers.to_set(), all);
}

/// Whether the rows before `n` sort below a key, or at or below it.
pub open spec fn rows_below(
    s: TreeShape,
    e: SharedEncoding,
    key: Seq<u8>,
    upper: bool,
    n: int,
) -> bool {
    forall|i: int|
        0 <= i < n && i < s.rows.len() ==> e.inner.sign((#[trigger] s.rows[i]).key, key) < 0 || (
        upper && e.inner.sign(s.rows[i].key, key) == 0)
}

/// Whether row `r` is the row a search is after.
pub open spec fn is_row(
    s: TreeShape,
    e: SharedEncoding,
    key: Seq<u8>,
    op: SearchOp,
    r: int,
) -> bool {
    &&& 0 <= r < s.rows.len()
    &&& match op {
        SearchOp::Equal => e.inner.sign(s.rows[r].key, key) == 0,
        SearchOp::LowerBound => rows_below(s, e, key, false, r) && e.inner.sign(
            s.rows[r].key,
            key,
        ) >= 0,
        SearchOp::UpperBound => rows_below(s, e, key, true, r) && e.inner.sign(s.rows[r].key, key)
            > 0,
    }
}

/// Whether no row is the row a search is after.
pub open spec fn no_row(s: TreeShape, e: SharedEncoding, key: Seq<u8>, op: SearchOp) -> bool {
    match op {
        SearchOp::Equal => forall|i: int|
            0 <= i < s.rows.len() ==> e.inner.sign((#[trigger] s.rows[i]).key, key) != 0,
        SearchOp::LowerBound => rows_below(s, e, key, false, s.rows.len() as int),
        SearchOp::UpperBound => rows_below(s, e, key, true, s.rows.len() as int),
    }
}

/// Whether entry `i` of a page is row `r`.
pub open spec fn entry_is_row(s: TreeShape, o: PageOrdinal, i: int, r: int) -> bool {
    exists|j: int|
        #[trigger] leaf_at(s, o, j) && 0 <= i < s.levels[0][j].count && r == s.levels[0][j].first
            + i
}

/// Whether entry `i` of a page is the row a search is after.
pub open spec fn is_found(
    s: TreeShape,
    e: SharedEncoding,
    key: Seq<u8>,
    op: SearchOp,
    o: PageOrdinal,
    i: int,
) -> bool {
    exists|r: int| #[trigger] entry_is_row(s, o, i, r) && is_row(s, e, key, op, r)
}

/// Whether a search may go on at a page: it is a leaf, and the rows before it are not what
/// it is after.
pub open spec fn searching_at(
    s: TreeShape,
    e: SharedEncoding,
    key: Seq<u8>,
    op: SearchOp,
    o: PageOrdinal,
    j: int,
) -> bool {
    &&& leaf_at(s, o, j)
    &&& rows_below(s, e, key, op == SearchOp::UpperBound, s.levels[0][j].first)
    &&& op == SearchOp::Equal ==> s.is_hollow() || model::home(s, e, 0, j, key)
}

/// A search goes on at the leaf the descent reached.
pub proof fn lemma_search_starts(
    s: TreeShape,
    e: SharedEncoding,
    layout: NodeLayout,
    pages: Pages,
    root: PageOrdinal,
    key: Seq<u8>,
    op: SearchOp,
    d: int,
    o: PageOrdinal,
)
    requires
        model::tree_ok(s, e, layout, pages, root),
        e.inner.accepts(key),
        on_path(s, e, key, d, o),
        0 <= d,
        node::page_kind(pages[o]) == NodeKind::Leaf,
    ensures
        exists|j: int| #[trigger] searching_at(s, e, key, op, o, j),
{
    let j = choose|j: int| #[trigger] node_on_path(s, e, key, d, o, j);
    let k = s.levels.len() - 1 - d;
    lemma_node_ordered(s, e, layout, pages, root, k, j);
    assert(k == 0);
    if !s.is_hollow() {
        model::lemma_home_leaf(s, e, j, key);
    }
    assert(searching_at(s, e, key, op, o, j));
}

/// What a leaf that has the row says of the tree.
pub proof fn lemma_hit(
    s: TreeShape,
    e: SharedEncoding,
    layout: NodeLayout,
    pages: Pages,
    root: PageOrdinal,
    key: Seq<u8>,
    op: SearchOp,
    o: PageOrdinal,
    j: int,
    i: usize,
)
    requires
        model::tree_ok(s, e, layout, pages, root),
        e.inner.accepts(key),
        searching_at(s, e, key, op, o, j),
        within::is_hit(e, model::node_keys(s, 0, j), key, op, Some(i)),
    ensures
        is_found(s, e, key, op, o, i as int),
{
    let n = s.levels[0][j];
    let keys = model::node_keys(s, 0, j);
    lemma_node_ordered(s, e, layout, pages, root, 0, j);
    let r = n.first + i;
    assert(i < keys.len());
    assert(!s.is_hollow());
    assert(keys[i as int] == s.rows[r].key);
    assert(entry_is_row(s, o, i as int, r)) by {
        assert(leaf_at(s, o, j));
    }
    if op != SearchOp::Equal {
        let upper = op == SearchOp::UpperBound;
        assert forall|x: int| 0 <= x < r && x < s.rows.len() implies e.inner.sign(
            (#[trigger] s.rows[x]).key,
            key,
        ) < 0 || (upper && e.inner.sign(s.rows[x].key, key) == 0) by {
            if x >= n.first {
                assert(keys[x - n.first] == s.rows[x].key);
            }
        }
    }
    assert(is_row(s, e, key, op, r));
}

/// What a leaf that does not have the row says of the tree, for an exact search.
pub proof fn lemma_miss(
    s: TreeShape,
    e: SharedEncoding,
    layout: NodeLayout,
    pages: Pages,
    root: PageOrdinal,
    key: Seq<u8>,
    o: PageOrdinal,
    j: int,
)
    requires
        model::tree_ok(s, e, layout, pages, root),
        e.inner.accepts(key),
        searching_at(s, e, key, SearchOp::Equal, o, j),
        within::is_hit(e, model::node_keys(s, 0, j), key, SearchOp::Equal, None),
    ensures
        no_row(s, e, key, SearchOp::Equal),
{
    let n = s.levels[0][j];
    let keys = model::node_keys(s, 0, j);
    if !s.is_hollow() {
        lemma_node_ordered(s, e, layout, pages, root, 0, j);
        model::lemma_home_leaf(s, e, j, key);
        assert forall|x: int| 0 <= x < s.rows.len() implies e.inner.sign(
            (#[trigger] s.rows[x]).key,
            key,
        ) != 0 by {
            if n.first <= x < n.first + n.count {
                assert(keys[x - n.first] == s.rows[x].key);
            }
        }
    }
}

/// What a leaf whose rows are all before the bound says of the tree.
pub proof fn lemma_pass(
    s: TreeShape,
    e: SharedEncoding,
    layout: NodeLayout,
    pages: Pages,
    root: PageOrdinal,
    key: Seq<u8>,
    op: SearchOp,
    o: PageOrdinal,
    j: int,
)
    requires
        model::tree_ok(s, e, layout, pages, root),
        op != SearchOp::Equal,
        searching_at(s, e, key, op, o, j),
        within::is_hit(e, model::node_keys(s, 0, j), key, op, None),
    ensures
        j + 1 < s.levels[0].len() ==> node::page_right(pages[o]) == Some(
            s.levels[0][j + 1].ordinal,
        ) && searching_at(s, e, key, op, s.levels[0][j + 1].ordinal, j + 1) && node::page_left(
            pages[s.levels[0][j + 1].ordinal],
        ) == Some(o),
        j + 1 == s.levels[0].len() ==> node::page_right(pages[o]) is None && no_row(s, e, key, op),
{
    let n = s.levels[0][j];
    let keys = model::node_keys(s, 0, j);
    let upper = op == SearchOp::UpperBound;
    lemma_node_ordered(s, e, layout, pages, root, 0, j);
    assert(model::node_ok(s, e, layout, pages, 0, j));
    assert(rows_below(s, e, key, upper, n.first + n.count)) by {
        assert forall|x: int|
            0 <= x < n.first + n.count && x < s.rows.len() implies e.inner.sign(
            (#[trigger] s.rows[x]).key,
            key,
        ) < 0 || (upper && e.inner.sign(s.rows[x].key, key) == 0) by {
            if x >= n.first {
                assert(keys[x - n.first] == s.rows[x].key);
            }
        }
    }
    if s.is_hollow() {
    } else {
        assert(s.tiled(0));
        model::lemma_tiles_inside(s, 0, j);
        if j + 1 < s.levels[0].len() {
            assert(model::node_ok(s, e, layout, pages, 0, j + 1));
        }
    }
}

/// What a search finds: a row with the key, or the first row whose key is not below it, or the first
/// whose key is above it, and nothing only where no row is that.
pub proof fn lemma_search_finds(s: TreeShape, e: SharedEncoding, key: Seq<u8>, r: int, i: int)
    requires
        0 <= i < s.rows.len(),
    ensures
        is_row(s, e, key, SearchOp::Equal, r) ==> 0 <= r < s.rows.len() && e.inner.sign(
            s.rows[r].key,
            key,
        ) == 0,
        is_row(s, e, key, SearchOp::LowerBound, r) ==> 0 <= r < s.rows.len() && (i < r
            ==> e.inner.sign(s.rows[i].key, key) < 0) && !(e.inner.sign(s.rows[r].key, key) < 0),
        is_row(s, e, key, SearchOp::UpperBound, r) ==> 0 <= r < s.rows.len() && (i < r ==> !(
        e.inner.sign(s.rows[i].key, key) > 0)) && e.inner.sign(s.rows[r].key, key) > 0,
        no_row(s, e, key, SearchOp::Equal) ==> e.inner.sign(s.rows[i].key, key) != 0,
        no_row(s, e, key, SearchOp::LowerBound) ==> e.inner.sign(s.rows[i].key, key) < 0,
        no_row(s, e, key, SearchOp::UpperBound) ==> !(e.inner.sign(s.rows[i].key, key) > 0),
{
}

} // verus!

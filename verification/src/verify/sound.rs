//! What a verification pass establishes of a tree.
//!
//! A pass that finds nothing has walked every level of the tree along its sibling chain and
//! has matched each level with the children the level above declares. [`tree_sound`] says
//! so.

use vstd::prelude::*;

use crate::btree::{paths, within};
use crate::encoding::{KeyEncoding, SharedEncoding};
use crate::format::node::{self, LeafValue, NodeKind, NodeLayout};
use crate::format::{PageOrdinal, PAGE_PREFIX_LEN};
use crate::model::{self, Pages, TreeShape};

verus! {

broadcast use crate::format::group_format;

/// The children of an internal page.
pub open spec fn children(p: Seq<u8>) -> Seq<PageOrdinal> {
    Seq::new(node::page_count(p) as nat, |i: int| node::internal_entry_at(p, i)->Some_0.child)
}

/// The children of the pages of a level, in order.
pub open spec fn child_list(pages: Pages, l: Seq<PageOrdinal>) -> Seq<PageOrdinal>
    decreases l.len(),
{
    if l.len() == 0 {
        Seq::empty()
    } else {
        child_list(pages, l.drop_last()) + children(pages[l.last()])
    }
}

/// The keys that a page stores.
pub open spec fn stored_keys(p: Seq<u8>) -> Seq<Seq<u8>> {
    if node::page_layout(p).omitted_keys {
        Seq::empty()
    } else {
        Seq::new(node::page_count(p) as nat, |i: int| node::entry_key_at(p, i))
    }
}

/// The keys that the pages of a level store, in order.
pub open spec fn level_keys(pages: Pages, l: Seq<PageOrdinal>) -> Seq<Seq<u8>>
    decreases l.len(),
{
    if l.len() == 0 {
        Seq::empty()
    } else {
        level_keys(pages, l.drop_last()) + stored_keys(pages[l.last()])
    }
}

/// Whether a key sorts above the one before it.
pub open spec fn key_step(e: SharedEncoding, keys: Seq<Seq<u8>>, i: int) -> bool {
    e.inner.sign(keys[i - 1], keys[i]) < 0
}

/// Whether each key sorts above the one before it.
pub open spec fn keys_ascend(e: SharedEncoding, keys: Seq<Seq<u8>>) -> bool {
    forall|i: int| 1 <= i < keys.len() ==> #[trigger] key_step(e, keys, i)
}

/// Whether a page starts where the page above says it does: at the separator's key where
/// both store keys, at its digest where the page above stores no key, and at a digest the
/// encoding takes for the key where only the page below stores none.
pub open spec fn separator_ok(e: SharedEncoding, p: Seq<u8>, i: int, q: Seq<u8>) -> bool {
    &&& node::page_count(q) > 0
    &&& if node::page_layout(p).omitted_keys {
        node::page_digests(p)[i] == node::page_digests(q)[0]
    } else if node::page_layout(q).omitted_keys {
        e.inner.admits(node::entry_key_at(p, i), node::page_digests(q)[0])
    } else {
        node::entry_key_at(p, i) == node::entry_key_at(q, 0)
    }
}

/// Whether an entry of an internal page leads to a page of the file that starts where the
/// entry says.
pub open spec fn child_ok(
    e: SharedEncoding,
    pages: Pages,
    count: int,
    o: PageOrdinal,
    i: int,
) -> bool {
    let p = pages[o];
    let child = children(p)[i];
    &&& child.get() < count
    &&& child != o
    &&& pages.contains_key(child)
    &&& separator_ok(e, p, i, pages[child])
}

/// Whether an internal page is sound.
pub open spec fn internal_ok(e: SharedEncoding, pages: Pages, count: int, o: PageOrdinal) -> bool {
    let p = pages[o];
    &&& pages.contains_key(o)
    &&& node::page_kind(p) == NodeKind::Internal
    &&& node::page_count(p) > 0
    &&& within::digests_sound(e, p)
    &&& forall|i: int|
        0 <= i < node::page_count(p) ==> #[trigger] child_ok(e, pages, count, o, i)
}

/// Whether page `i` of a level is linked to the one before it.
pub open spec fn left_ok(pages: Pages, l: Seq<PageOrdinal>, i: int) -> bool {
    node::page_left(pages[l[i]]) == (if i == 0 {
        None
    } else {
        Some(l[i - 1])
    })
}

/// Whether page `i` of a level is linked to the one after it.
pub open spec fn right_ok(pages: Pages, l: Seq<PageOrdinal>, i: int) -> bool {
    node::page_right(pages[l[i]]) == (if i + 1 == l.len() {
        None
    } else {
        Some(l[i + 1])
    })
}

/// Whether pages are a whole level: on one sibling chain, from its start to its end.
pub open spec fn chain_ok(pages: Pages, l: Seq<PageOrdinal>) -> bool {
    &&& l.len() > 0
    &&& forall|i: int| 0 <= i < l.len() ==> pages.contains_key(#[trigger] l[i])
    &&& forall|i: int| 0 <= i < l.len() ==> #[trigger] left_ok(pages, l, i)
    &&& forall|i: int| 0 <= i < l.len() ==> #[trigger] right_ok(pages, l, i)
}

/// Whether pages are a sound internal level, and its children are a chain.
pub open spec fn level_ok(e: SharedEncoding, pages: Pages, count: int, l: Seq<PageOrdinal>) -> bool {
    &&& chain_ok(pages, l)
    &&& forall|i: int| 0 <= i < l.len() ==> #[trigger] internal_ok(e, pages, count, l[i])
    &&& keys_ascend(e, level_keys(pages, l))
}

/// The key of a leaf entry: the one it stores, or the one its digest stands for.
pub open spec fn leaf_key(e: SharedEncoding, p: Seq<u8>, i: int) -> Option<Seq<u8>> {
    if node::page_layout(p).omitted_keys {
        e.inner.rebuilt(node::page_digests(p)[i])
    } else {
        Some(node::entry_key_at(p, i))
    }
}

/// Whether a page's keys are rebuilt from digests that several keys may share.
pub open spec fn inexact(e: SharedEncoding, p: Seq<u8>) -> bool {
    node::page_layout(p).omitted_keys && !e.inner.exact()
}

/// A leaf entry, by its page and its place on it.
pub struct Place {
    pub page: PageOrdinal,
    pub index: int,
}

/// The entries of a leaf.
pub open spec fn entries_of(pages: Pages, o: PageOrdinal) -> Seq<Place> {
    Seq::new(node::page_count(pages[o]) as nat, |i: int| Place { page: o, index: i })
}

/// The entries of leaves, in order.
pub open spec fn entry_list(pages: Pages, l: Seq<PageOrdinal>) -> Seq<Place>
    decreases l.len(),
{
    if l.len() == 0 {
        Seq::empty()
    } else {
        entry_list(pages, l.drop_last()) + entries_of(pages, l.last())
    }
}

/// Whether an entry sorts above the one before it. Equal is allowed when either key is one of
/// several that its digest may stand for.
pub open spec fn entry_step(e: SharedEncoding, pages: Pages, list: Seq<Place>, i: int) -> bool {
    let (a, b) = (list[i - 1], list[i]);
    let (p, q) = (pages[a.page], pages[b.page]);
    &&& leaf_key(e, p, a.index) is Some
    &&& leaf_key(e, q, b.index) is Some
    &&& {
        let s = e.inner.sign(leaf_key(e, p, a.index)->Some_0, leaf_key(e, q, b.index)->Some_0);
        s < 0 || s == 0 && (inexact(e, p) || inexact(e, q))
    }
}

/// Whether a page is a blob page.
pub open spec fn is_blob(pages: Pages, count: int, o: PageOrdinal) -> bool {
    &&& o.get() < count
    &&& pages.contains_key(o)
    &&& node::page_kind(pages[o]) == NodeKind::Leaf
    &&& node::page_count(pages[o]) == 0
}

/// The bytes in the value position of a leaf entry, wherever they are.
pub open spec fn entry_bytes(pages: Pages, o: PageOrdinal, i: int) -> Seq<u8> {
    match node::leaf_entry_at(pages[o], i) {
        Some(entry) => match entry.value {
            LeafValue::Inline { offset, len } => pages[o].subrange(offset as int, offset + len),
            LeafValue::Overflow { page } => pages[page].subrange(
                PAGE_PREFIX_LEN as int,
                pages[page].len() as int,
            ),
        },
        None => Seq::empty(),
    }
}

/// Whether a leaf entry can be read: its key is there, and its value is on its page or on a
/// blob page.
pub open spec fn entry_ok(e: SharedEncoding, pages: Pages, count: int, o: PageOrdinal, i: int) -> bool {
    &&& leaf_key(e, pages[o], i) is Some
    &&& node::leaf_entry_at(pages[o], i) matches Some(entry) && (
    entry.value matches LeafValue::Overflow { page } ==> is_blob(pages, count, page))
}

/// Whether a leaf is sound.
pub open spec fn leaf_ok(e: SharedEncoding, pages: Pages, count: int, o: PageOrdinal) -> bool {
    let p = pages[o];
    &&& pages.contains_key(o)
    &&& node::page_kind(p) == NodeKind::Leaf
    &&& within::digests_sound(e, p)
    &&& forall|i: int|
        0 <= i < node::page_count(p) ==> #[trigger] entry_ok(e, pages, count, o, i)
}

/// Whether pages are a sound leaf level.
pub open spec fn leaves_ok(e: SharedEncoding, pages: Pages, count: int, l: Seq<PageOrdinal>) -> bool {
    &&& chain_ok(pages, l)
    &&& forall|i: int| 0 <= i < l.len() ==> #[trigger] leaf_ok(e, pages, count, l[i])
    &&& forall|i: int|
        1 <= i < entry_list(pages, l).len() ==> #[trigger] entry_step(
            e,
            pages,
            entry_list(pages, l),
            i,
        )
}

/// Whether a level is the children of the one above it, and both are sound.
pub open spec fn below_ok(
    e: SharedEncoding,
    pages: Pages,
    count: int,
    levels: Seq<Seq<PageOrdinal>>,
    d: int,
) -> bool {
    &&& level_ok(e, pages, count, levels[d])
    &&& levels[d + 1] == child_list(pages, levels[d])
}

/// Whether these are the levels of a sound tree, the root first and the leaves last: not
/// deeper than a tree may be, with a root that has no sibling, each level being the children
/// the level above declares.
pub open spec fn tree_sound(
    e: SharedEncoding,
    pages: Pages,
    count: int,
    depth: int,
    root: PageOrdinal,
    levels: Seq<Seq<PageOrdinal>>,
) -> bool {
    &&& 1 <= levels.len() <= depth
    &&& levels[0] == seq![root]
    &&& forall|d: int|
        0 <= d < levels.len() - 1 ==> #[trigger] below_ok(e, pages, count, levels, d)
    &&& leaves_ok(e, pages, count, levels.last())
}

/// Nodes of a tree are different pages.
pub proof fn lemma_nodes_apart(
    s: TreeShape,
    e: SharedEncoding,
    layout: NodeLayout,
    pages: Pages,
    root: PageOrdinal,
    a: int,
    i: int,
    b: int,
    j: int,
)
    requires
        model::tree_ok(s, e, layout, pages, root),
        0 <= a <= b < s.levels.len(),
        0 <= i < s.levels[a].len(),
        0 <= j < s.levels[b].len(),
        a < b || i < j,
    ensures
        s.levels[a][i].ordinal != s.levels[b][j].ordinal,
    decreases a, s.levels[a].len() - j,
{
    assert(model::node_ok(s, e, layout, pages, a, i));
    assert(model::node_ok(s, e, layout, pages, b, j));
    if s.levels[a][i].ordinal == s.levels[b][j].ordinal {
        if a == b {
            if j + 1 < s.levels[a].len() {
                lemma_nodes_apart(s, e, layout, pages, root, a, i + 1, b, j + 1);
            }
        } else if a > 0 {
            // The same page, so the same first child.
            paths::lemma_node_ordered(s, e, layout, pages, root, a, i);
            paths::lemma_node_ordered(s, e, layout, pages, root, b, j);
            assert(!s.is_hollow());
            let p = pages[s.levels[a][i].ordinal];
            assert(node::internal_entry_at(p, 0) is Some);
            lemma_nodes_apart(
                s,
                e,
                layout,
                pages,
                root,
                a - 1,
                s.levels[a][i].first,
                b - 1,
                s.levels[b][j].first,
            );
        }
    }
}

/// How many pages the first levels of a tree have.
pub open spec fn nodes_in(s: TreeShape, n: int) -> int
    decreases n,
{
    if n <= 0 {
        0
    } else {
        nodes_in(s, n - 1) + s.levels[n - 1].len()
    }
}

/// The pages of the first levels of a tree.
spec fn node_numbers(s: TreeShape, n: int) -> Seq<int>
    decreases n,
{
    if n <= 0 {
        Seq::empty()
    } else {
        node_numbers(s, n - 1) + Seq::new(
            s.levels[n - 1].len(),
            |i: int| s.levels[n - 1][i].ordinal.get() as int,
        )
    }
}

/// Where the pages of the first levels of a tree are.
proof fn lemma_node_numbers(s: TreeShape, n: int, x: int) -> (r: (int, int))
    requires
        0 <= n <= s.levels.len(),
        0 <= x < node_numbers(s, n).len(),
    ensures
        0 <= r.0 < n,
        0 <= r.1 < s.levels[r.0].len(),
        node_numbers(s, n)[x] == s.levels[r.0][r.1].ordinal.get(),
        x == nodes_in(s, r.0) + r.1,
    decreases n,
{
    lemma_nodes_len(s, n - 1);
    let before = node_numbers(s, n - 1).len() as int;
    if x < before {
        lemma_node_numbers(s, n - 1, x)
    } else {
        (n - 1, x - before)
    }
}

proof fn lemma_nodes_len(s: TreeShape, n: int)
    requires
        n <= s.levels.len(),
    ensures
        node_numbers(s, n).len() == nodes_in(s, n),
        0 <= nodes_in(s, n),
    decreases n,
{
    if n > 0 {
        lemma_nodes_len(s, n - 1);
    }
}

/// A tree has no more pages than there are.
pub proof fn lemma_node_count(
    s: TreeShape,
    e: SharedEncoding,
    layout: NodeLayout,
    pages: Pages,
    root: PageOrdinal,
    count: int,
)
    requires
        model::tree_ok(s, e, layout, pages, root),
        forall|o: PageOrdinal| #[trigger] pages.contains_key(o) ==> o.get() < count,
        0 <= count,
    ensures
        nodes_in(s, s.levels.len() as int) <= count,
{
    let n = s.levels.len() as int;
    let numbers = node_numbers(s, n);
    lemma_nodes_len(s, n);
    assert forall|x: int, y: int|
        0 <= x < numbers.len() && 0 <= y < numbers.len() && x != y implies numbers[x]
        != numbers[y] by {
        let (a, i) = lemma_node_numbers(s, n, x);
        let (b, j) = lemma_node_numbers(s, n, y);
        if a < b || a == b && i < j {
            lemma_nodes_apart(s, e, layout, pages, root, a, i, b, j);
        } else {
            lemma_nodes_apart(s, e, layout, pages, root, b, j, a, i);
        }
        let (o, q) = (s.levels[a][i].ordinal, s.levels[b][j].ordinal);
        assert(PageOrdinal::spec_new(o.get()) == o);
        assert(PageOrdinal::spec_new(q.get()) == q);
    }
    assert(numbers.no_duplicates());
    numbers.unique_seq_to_set();
    let all = vstd::set_lib::set_int_range(0, count);
    vstd::set_lib::lemma_int_range(0, count);
    assert(numbers.to_set().subset_of(all)) by {
        assert forall|v: int| numbers.to_set().contains(v) implies all.contains(v) by {
            let x = choose|x: int| 0 <= x < numbers.len() && numbers[x] == v;
            let (a, i) = lemma_node_numbers(s, n, x);
            assert(model::node_ok(s, e, layout, pages, a, i));
            assert(pages.contains_key(s.levels[a][i].ordinal));
        }
    }
    vstd::set_lib::lemma_len_subset(numbers.to_set(), all);
}

/// Levels are part of the whole.
pub proof fn lemma_nodes_part(s: TreeShape, a: int, b: int)
    requires
        0 <= a <= b <= s.levels.len(),
    ensures
        0 <= nodes_in(s, a) <= nodes_in(s, b),
    decreases b - a,
{
    if a < b {
        lemma_nodes_part(s, a, b - 1);
    } else {
        lemma_nodes_len(s, a);
    }
}

} // verus!

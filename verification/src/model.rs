//! What a tree on pages is.
//!
//! A tree holds rows in key order. Its leaves cut the rows into consecutive runs, and each
//! level above cuts the pages below it into consecutive runs, up to a single root. Every
//! internal entry is the first key below it, and the pages of a level are linked in order.
//! [`tree_ok`] says that pages hold such a tree; the builder establishes it and the reader
//! relies on it.

use vstd::prelude::*;

use crate::encoding::{self, KeyEncoding, SharedEncoding};
use crate::format::node::{self, LeafValue, NodeKind, NodeLayout};
use crate::format::pageref::PageRef;
use crate::format::{PageLocalOffset, PageOrdinal, PAGE_PREFIX_LEN};

verus! {

broadcast use crate::format::group_format;

/// A key and its value.
pub struct Row {
    pub key: Seq<u8>,
    pub value: Seq<u8>,
}

/// A page of a level: its ordinal, and which of the things below it its entries are.
pub struct Node {
    pub ordinal: PageOrdinal,
    pub first: int,
    pub count: int,
}

/// The rows of a tree and how its pages cut them up, leaves first.
pub struct TreeShape {
    pub rows: Seq<Row>,
    pub levels: Seq<Seq<Node>>,
}

/// Pages by ordinal.
pub type Pages = Map<PageOrdinal, Seq<u8>>;

impl TreeShape {
    /// How many things there are below a level: rows below the leaves, pages otherwise.
    pub open spec fn below(self, k: int) -> nat {
        if k <= 0 {
            self.rows.len()
        } else {
            self.levels[k - 1].len()
        }
    }

    /// The first key at or below page `j` of level `k`.
    pub open spec fn first_key(self, k: int, j: int) -> Seq<u8>
        decreases k,
    {
        if k <= 0 {
            self.rows[self.levels[0][j].first].key
        } else {
            self.first_key(k - 1, self.levels[k][j].first)
        }
    }

    /// The key of thing `i` below level `k`.
    pub open spec fn key_below(self, k: int, i: int) -> Seq<u8> {
        if k <= 0 {
            self.rows[i].key
        } else {
            self.first_key(k - 1, i)
        }
    }

    /// Whether the run of page `j` of level `k` is not empty and ends where the next one
    /// starts, or where there is nothing more.
    pub open spec fn run_ok(self, k: int, j: int) -> bool {
        let l = self.levels[k];
        &&& l[j].count >= 1
        &&& l[j].first + l[j].count == (if j + 1 < l.len() {
            l[j + 1].first
        } else {
            self.below(k) as int
        })
    }

    /// Whether a level cuts what is below it into consecutive runs, none of them empty.
    pub open spec fn tiled(self, k: int) -> bool {
        let l = self.levels[k];
        &&& l.len() > 0
        &&& l[0].first == 0
        &&& forall|j: int| 0 <= j < l.len() ==> #[trigger] self.run_ok(k, j)
    }

    /// Whether this is the shape of a tree without rows: one empty leaf.
    pub open spec fn is_hollow(self) -> bool {
        &&& self.rows.len() == 0
        &&& self.levels.len() == 1
        &&& self.levels[0].len() == 1
        &&& self.levels[0][0].first == 0
        &&& self.levels[0][0].count == 0
    }

    /// Whether the levels narrow down to a root.
    pub open spec fn is_tree(self) -> bool {
        &&& self.levels.len() >= 1
        &&& self.levels.last().len() == 1
        &&& self.is_hollow() || forall|k: int|
            0 <= k < self.levels.len() ==> #[trigger] self.tiled(k)
    }

    /// The root page.
    pub open spec fn root(self) -> PageOrdinal {
        self.levels.last()[0].ordinal
    }
}

/// Whether rows are in strictly ascending key order, and their keys are keys.
pub open spec fn sorted_rows(e: SharedEncoding, rows: Seq<Row>) -> bool {
    &&& forall|i: int|
        0 <= i < rows.len() ==> e.inner.accepts((#[trigger] rows[i]).key) && e.inner.well_formed(
            rows[i].key,
        )
    &&& forall|i: int, j: int|
        0 <= i < j < rows.len() ==> e.inner.sign((#[trigger] rows[i]).key, (
        #[trigger] rows[j]).key) < 0
}

/// Whether a leaf entry of a page has this value, inline or on a page of its own.
pub open spec fn value_ok(pages: Pages, p: Seq<u8>, i: int, value: Seq<u8>) -> bool {
    match node::leaf_entry_at(p, i) {
        Some(e) => match e.value {
            LeafValue::Inline { offset, len } => offset + len <= p.len() && p.subrange(
                offset as int,
                offset + len,
            ) == value,
            LeafValue::Overflow { page } => pages.contains_key(page) && blob_ok(
                pages[page],
                value,
            ),
        },
        None => false,
    }
}

/// Whether the value of a leaf entry is on the leaf.
pub open spec fn kept_inline(p: Seq<u8>, i: int) -> bool {
    node::leaf_entry_at(p, i) matches Some(e) && e.value is Inline
}

/// How many bytes of a key a page stores.
pub open spec fn stored_key(layout: NodeLayout, key: Seq<u8>) -> int {
    if layout.omitted_keys {
        0
    } else {
        key.len() as int
    }
}

/// What the first `n` entries of a leaf take, whose rows start at `first`: a key each, and its
/// value or the number of the page that the value is on.
pub open spec fn leaf_taken(
    layout: NodeLayout,
    p: Seq<u8>,
    rows: Seq<Row>,
    first: int,
    n: nat,
) -> int
    decreases n,
{
    if n == 0 {
        0
    } else {
        let row = rows[first + n - 1];
        leaf_taken(layout, p, rows, first, (n - 1) as nat) + stored_key(layout, row.key) + (
        if kept_inline(p, n - 1) {
            row.value.len() as int
        } else {
            8
        })
    }
}

/// What a leaf of this many entries takes besides its keys and values.
pub open spec fn leaf_frame(layout: NodeLayout, n: nat) -> int {
    PAGE_PREFIX_LEN + layout.digest_area(n) + layout.leaf_meta(n)
}

/// Whether the value of entry `i` of leaf `j` is on the leaf exactly where it can be: it is not
/// too long for the length that a leaf keeps of it, and it fits a page behind the entries before
/// it.
pub open spec fn row_packed(
    s: TreeShape,
    layout: NodeLayout,
    pages: Pages,
    size: int,
    j: int,
    i: int,
) -> bool {
    let n = s.levels[0][j];
    let p = pages[n.ordinal];
    let row = s.rows[n.first + i];
    kept_inline(p, i) == (row.value.len() < 0xFFFF && leaf_frame(layout, (i + 1) as nat)
        + leaf_taken(layout, p, s.rows, n.first, i as nat) + stored_key(layout, row.key)
        + row.value.len() <= size)
}

/// Whether the values on the leaves of a tree are those that can be there.
pub open spec fn packed(s: TreeShape, layout: NodeLayout, pages: Pages, size: int) -> bool {
    forall|j: int, i: int|
        0 <= j < s.levels[0].len() && 0 <= i < s.levels[0][j].count ==> #[trigger] row_packed(
            s,
            layout,
            pages,
            size,
            j,
            i,
        )
}

/// Whether a page is a blob page with this value.
pub open spec fn blob_ok(p: Seq<u8>, value: Seq<u8>) -> bool {
    &&& node::page_ok(p)
    &&& node::entries_ok(p)
    &&& node::page_kind(p) == NodeKind::Leaf
    &&& node::page_count(p) == 0
    &&& !node::page_layout(p).compact_meta
    &&& p.subrange(PAGE_PREFIX_LEN as int, p.len() as int) == value
}

/// The reference to the value of a leaf entry: its place on the page, or all of its blob page.
pub open spec fn entry_ref(pages: Pages, o: PageOrdinal, i: int) -> Option<PageRef> {
    match node::leaf_entry_at(pages[o], i) {
        Some(e) => Some(
            match e.value {
                LeafValue::Inline { offset, len } => PageRef {
                    page: o,
                    start: PageLocalOffset::spec_new(offset as u32),
                    length: len as u32,
                },
                LeafValue::Overflow { page } => PageRef {
                    page,
                    start: PageLocalOffset::spec_new(PAGE_PREFIX_LEN as u32),
                    length: (pages[page].len() - PAGE_PREFIX_LEN) as u32,
                },
            },
        ),
        None => None,
    }
}

/// Whether row `q` of a tree is the one at an entry of leaf `j`, and this the reference to its
/// value.
pub open spec fn ref_at(s: TreeShape, pages: Pages, q: int, r: PageRef, j: int) -> bool {
    let n = s.levels[0][j];
    &&& n.first <= q < n.first + n.count
    &&& entry_ref(pages, n.ordinal, q - n.first) == Some(r)
}

/// Whether this is the reference to the value of row `q` of a tree.
pub open spec fn row_ref(s: TreeShape, pages: Pages, q: int, r: PageRef) -> bool {
    exists|j: int| 0 <= j < s.levels[0].len() && #[trigger] ref_at(s, pages, q, r, j)
}

/// Whether a page stores these keys: their digests in order, and the keys themselves
/// unless the layout omits them.
pub open spec fn keys_ok(
    e: SharedEncoding,
    layout: NodeLayout,
    p: Seq<u8>,
    keys: Seq<Seq<u8>>,
) -> bool {
    &&& node::page_ok(p)
    &&& node::entries_ok(p)
    &&& node::page_layout(p) == layout
    &&& node::page_count(p) == keys.len()
    &&& layout.omitted_keys ==> e.inner.exact()
    &&& node::page_digests(p).len() == layout.slots(keys.len())
    &&& forall|i: int|
        0 <= i < keys.len() ==> #[trigger] node::page_digests(p)[i] == e.inner.digest_of(keys[i])
    &&& forall|i: int|
        keys.len() <= i < node::page_digests(p).len() ==> #[trigger] node::page_digests(p)[i]
            == u64::MAX
    &&& !layout.omitted_keys ==> forall|i: int|
        0 <= i < keys.len() ==> #[trigger] node::entry_key_at(p, i) == keys[i]
}

/// The keys of the entries of page `j` of level `k`.
pub open spec fn node_keys(s: TreeShape, k: int, j: int) -> Seq<Seq<u8>> {
    let n = s.levels[k][j];
    Seq::new(n.count as nat, |i: int| s.key_below(k, n.first + i))
}

/// Whether the page of node `j` of level `k` is the page the shape says.
pub open spec fn node_ok(
    s: TreeShape,
    e: SharedEncoding,
    layout: NodeLayout,
    pages: Pages,
    k: int,
    j: int,
) -> bool {
    let n = s.levels[k][j];
    let p = pages[n.ordinal];
    &&& pages.contains_key(n.ordinal)
    &&& keys_ok(e, layout, p, node_keys(s, k, j))
    &&& node::page_kind(p) == (if k == 0 {
        NodeKind::Leaf
    } else {
        NodeKind::Internal
    })
    &&& k == 0 ==> forall|i: int|
        0 <= i < n.count ==> #[trigger] value_ok(pages, p, i, s.rows[n.first + i].value)
    &&& k > 0 ==> forall|i: int|
        0 <= i < n.count ==> (#[trigger] node::internal_entry_at(p, i) matches Some(entry)
            && entry.child == s.levels[k - 1][n.first + i].ordinal)
    &&& node::page_left(p) == (if j == 0 {
        None
    } else {
        Some(s.levels[k][j - 1].ordinal)
    })
    &&& node::page_right(p) == (if j + 1 == s.levels[k].len() {
        None
    } else {
        Some(s.levels[k][j + 1].ordinal)
    })
}

/// Whether pages hold the tree of this shape.
pub open spec fn tree_ok(
    s: TreeShape,
    e: SharedEncoding,
    layout: NodeLayout,
    pages: Pages,
    root: PageOrdinal,
) -> bool {
    &&& s.is_tree()
    &&& s.root() == root
    &&& sorted_rows(e, s.rows)
    &&& encoding::lawful(&**e.inner)
    &&& layout.valid()
    &&& forall|k: int, j: int|
        0 <= k < s.levels.len() && 0 <= j < s.levels[k].len() ==> #[trigger] node_ok(
            s,
            e,
            layout,
            pages,
            k,
            j,
        )
}

/// A reference to the value of a row is the same one in pages that are the same where the tree
/// is.
pub proof fn lemma_ref_kept(
    s: TreeShape,
    e: SharedEncoding,
    layout: NodeLayout,
    a: Pages,
    b: Pages,
    root: PageOrdinal,
    q: int,
    r: PageRef,
    j: int,
)
    requires
        tree_ok(s, e, layout, a, root),
        readable_alike(a, b),
        0 <= j < s.levels[0].len(),
        ref_at(s, a, q, r, j),
    ensures
        row_ref(s, b, q, r),
        ref_at(s, b, q, r, j),
{
    let n = s.levels[0][j];
    let i = q - n.first;
    assert(node_ok(s, e, layout, a, 0, j));
    assert(b[n.ordinal] == a[n.ordinal]);
    assert(value_ok(a, a[n.ordinal], i, s.rows[n.first + i].value));
    match node::leaf_entry_at(a[n.ordinal], i) {
        Some(entry) => match entry.value {
            LeafValue::Overflow { page } => {
                assert(b[page] == a[page]);
            },
            _ => {},
        },
        None => {},
    }
    assert(ref_at(s, b, q, r, j));
}

/// Whether pages hold a tree of these rows.
pub open spec fn holds_rows(
    rows: Seq<Row>,
    e: SharedEncoding,
    layout: NodeLayout,
    pages: Pages,
    root: PageOrdinal,
) -> bool {
    exists|s: TreeShape|
        s.rows == rows && s.levels.len() <= MAX_LEVELS && #[trigger] tree_ok(
            s,
            e,
            layout,
            pages,
            root,
        )
}

/// Whether pages of this size hold a tree of these rows, with the values on its leaves that can be
/// there.
pub open spec fn holds_packed(
    rows: Seq<Row>,
    e: SharedEncoding,
    layout: NodeLayout,
    pages: Pages,
    root: PageOrdinal,
    size: int,
) -> bool {
    exists|s: TreeShape|
        s.rows == rows && s.levels.len() <= MAX_LEVELS && #[trigger] tree_ok(
            s,
            e,
            layout,
            pages,
            root,
        ) && packed(s, layout, pages, size)
}

/// The values on the leaves of a tree are the same in pages that are the same where the tree is.
pub proof fn lemma_packed_kept(
    s: TreeShape,
    e: SharedEncoding,
    layout: NodeLayout,
    a: Pages,
    b: Pages,
    root: PageOrdinal,
    size: int,
)
    requires
        tree_ok(s, e, layout, a, root),
        packed(s, layout, a, size),
        readable_alike(a, b),
    ensures
        packed(s, layout, b, size),
{
    assert forall|j: int, i: int|
        0 <= j < s.levels[0].len() && 0 <= i < s.levels[0][j].count implies #[trigger] row_packed(
        s,
        layout,
        b,
        size,
        j,
        i,
    ) by {
        assert(row_packed(s, layout, a, size, j, i));
        assert(node_ok(s, e, layout, a, 0, j));
        assert(b[s.levels[0][j].ordinal] == a[s.levels[0][j].ordinal]);
    }
}

/// Deepest tree a build makes.
///
/// A backstop, not a design limit: with a page holding at least two separators, the height
/// grows logarithmically and never comes close. Reaching it means a level failed to reduce,
/// and stopping is better than growing without bound.
pub const MAX_LEVELS: usize = 64;

/// The pages of a list, by ordinal.
pub open spec fn page_map(pages: Seq<Seq<u8>>) -> Pages {
    Map::new(|o: PageOrdinal| o.get() < pages.len(), |o: PageOrdinal| pages[o.get() as int])
}

/// A tree stays where it is when more pages are written after its own.
pub proof fn lemma_tree_kept(
    s: TreeShape,
    e: SharedEncoding,
    layout: NodeLayout,
    a: Seq<Seq<u8>>,
    b: Seq<Seq<u8>>,
    root: PageOrdinal,
)
    requires
        tree_ok(s, e, layout, page_map(a), root),
        a.len() <= b.len(),
        forall|i: int| 0 <= i < a.len() ==> #[trigger] b[i] == a[i],
    ensures
        tree_ok(s, e, layout, page_map(b), root),
{
    let (ma, mb) = (page_map(a), page_map(b));
    assert forall|o: PageOrdinal| #[trigger] ma.contains_key(o) implies mb.contains_key(o) && mb[o]
        == ma[o] by {
        assert(b[o.get() as int] == a[o.get() as int]);
    }
    assert forall|k: int, j: int|
        0 <= k < s.levels.len() && 0 <= j < s.levels[k].len() implies #[trigger] node_ok(
        s,
        e,
        layout,
        mb,
        k,
        j,
    ) by {
        assert(node_ok(s, e, layout, ma, k, j));
        let n = s.levels[k][j];
        assert(mb[n.ordinal] == ma[n.ordinal]);
        if k == 0 {
            assert forall|i: int| 0 <= i < n.count implies #[trigger] value_ok(
                mb,
                mb[n.ordinal],
                i,
                s.rows[n.first + i].value,
            ) by {
                assert(value_ok(ma, ma[n.ordinal], i, s.rows[n.first + i].value));
            }
        }
    }
}

/// Whether pages a reader accepts are the same in another set of pages.
pub open spec fn readable_alike(a: Pages, b: Pages) -> bool {
    forall|o: PageOrdinal|
        #[trigger] a.contains_key(o) && node::page_ok(a[o]) && node::entries_ok(a[o])
            ==> b.contains_key(o) && b[o] == a[o]
}

/// A tree is the same tree for an encoding that does the same, and in pages that are the
/// same where a reader accepts them.
pub proof fn lemma_tree_alike(
    s: TreeShape,
    e: SharedEncoding,
    f: SharedEncoding,
    layout: NodeLayout,
    a: Pages,
    b: Pages,
    root: PageOrdinal,
)
    requires
        tree_ok(s, e, layout, a, root),
        encoding::alike::alike(&**e.inner, &**f.inner),
        readable_alike(a, b),
    ensures
        tree_ok(s, f, layout, b, root),
{
    encoding::alike::lemma_lawful(&**e.inner, &**f.inner);
    assert(sorted_rows(f, s.rows));
    assert forall|k: int, j: int|
        0 <= k < s.levels.len() && 0 <= j < s.levels[k].len() implies #[trigger] node_ok(
        s,
        f,
        layout,
        b,
        k,
        j,
    ) by {
        assert(node_ok(s, e, layout, a, k, j));
        let n = s.levels[k][j];
        let keys = node_keys(s, k, j);
        assert(b[n.ordinal] == a[n.ordinal]);
        let p = a[n.ordinal];
        assert forall|i: int| 0 <= i < keys.len() implies #[trigger] node::page_digests(p)[i]
            == f.inner.digest_of(keys[i]) by {
            assert(node::page_digests(p)[i] == e.inner.digest_of(keys[i]));
        }
        if k == 0 {
            assert forall|i: int| 0 <= i < n.count implies #[trigger] value_ok(
                b,
                p,
                i,
                s.rows[n.first + i].value,
            ) by {
                assert(value_ok(a, p, i, s.rows[n.first + i].value));
            }
        }
    }
}

/// Runs of a tiled level ascend.
pub proof fn lemma_tiles_ascend(s: TreeShape, k: int, a: int, b: int)
    requires
        s.tiled(k),
        0 <= a < b < s.levels[k].len(),
    ensures
        s.levels[k][a].first + s.levels[k][a].count <= s.levels[k][b].first,
    decreases b - a,
{
    assert(s.run_ok(k, a));
    if a + 1 < b {
        assert(s.run_ok(k, a + 1));
        lemma_tiles_ascend(s, k, a + 1, b);
    }
}

/// Runs of a tiled level are inside what is below it.
pub proof fn lemma_tiles_inside(s: TreeShape, k: int, j: int)
    requires
        s.tiled(k),
        0 <= j < s.levels[k].len(),
    ensures
        0 <= s.levels[k][j].first,
        s.levels[k][j].count >= 1,
        s.levels[k][j].first + s.levels[k][j].count <= s.below(k),
        j + 1 < s.levels[k].len() ==> s.levels[k][j].first + s.levels[k][j].count
            == s.levels[k][j + 1].first,
        j + 1 == s.levels[k].len() ==> s.levels[k][j].first + s.levels[k][j].count == s.below(k),
{
    let l = s.levels[k];
    assert(s.run_ok(k, 0));
    assert(s.run_ok(k, j));
    if j > 0 {
        lemma_tiles_ascend(s, k, 0, j);
    }
    if j + 1 < l.len() {
        lemma_tiles_ascend(s, k, j, l.len() - 1);
        assert(s.run_ok(k, l.len() - 1));
    }
}

/// First keys ascend along a level.
pub proof fn lemma_first_keys_ascend(s: TreeShape, e: SharedEncoding, k: int, a: int, b: int)
    requires
        sorted_rows(e, s.rows),
        0 <= k < s.levels.len(),
        forall|i: int| 0 <= i <= k ==> #[trigger] s.tiled(i),
        0 <= a < b < s.levels[k].len(),
    ensures
        e.inner.sign(s.first_key(k, a), s.first_key(k, b)) < 0,
        e.inner.accepts(s.first_key(k, a)),
        e.inner.accepts(s.first_key(k, b)),
    decreases k,
{
    assert(s.tiled(k));
    lemma_tiles_ascend(s, k, a, b);
    lemma_tiles_inside(s, k, a);
    lemma_tiles_inside(s, k, b);
    if k > 0 {
        lemma_first_keys_ascend(s, e, k - 1, s.levels[k][a].first, s.levels[k][b].first);
    }
}

/// A first key is a key.
pub proof fn lemma_first_key_accepted(s: TreeShape, e: SharedEncoding, k: int, j: int)
    requires
        sorted_rows(e, s.rows),
        0 <= k < s.levels.len(),
        forall|i: int| 0 <= i <= k ==> #[trigger] s.tiled(i),
        0 <= j < s.levels[k].len(),
    ensures
        e.inner.accepts(s.first_key(k, j)),
        e.inner.well_formed(s.first_key(k, j)),
    decreases k,
{
    assert(s.tiled(k));
    lemma_tiles_inside(s, k, j);
    if k > 0 {
        lemma_first_key_accepted(s, e, k - 1, s.levels[k][j].first);
    }
}

/// The keys of a node ascend, and are keys.
pub proof fn lemma_node_keys_ascend(s: TreeShape, e: SharedEncoding, k: int, j: int)
    requires
        sorted_rows(e, s.rows),
        s.is_tree(),
        0 <= k < s.levels.len(),
        0 <= j < s.levels[k].len(),
    ensures
        ascending_keys(e, node_keys(s, k, j)),
{
    let keys = node_keys(s, k, j);
    if s.is_hollow() {
        assert(keys.len() == 0);
    } else {
        assert(s.tiled(k));
        lemma_tiles_inside(s, k, j);
        let first = s.levels[k][j].first;
        assert forall|i: int| 0 <= i < keys.len() implies e.inner.accepts(#[trigger] keys[i])
            && e.inner.well_formed(keys[i]) by {
            if k > 0 {
                lemma_first_key_accepted(s, e, k - 1, first + i);
            }
        }
        assert forall|a: int, b: int| 0 <= a < b < keys.len() implies e.inner.sign(
            #[trigger] keys[a],
            #[trigger] keys[b],
        ) < 0 by {
            if k > 0 {
                lemma_first_keys_ascend(s, e, k - 1, first + a, first + b);
            }
        }
    }
}

/// Whether keys are in strictly ascending order.
pub open spec fn ascending_keys(e: SharedEncoding, keys: Seq<Seq<u8>>) -> bool {
    &&& forall|i: int|
        0 <= i < keys.len() ==> e.inner.accepts(#[trigger] keys[i]) && e.inner.well_formed(keys[i])
    &&& forall|i: int, j: int|
        0 <= i < j < keys.len() ==> e.inner.sign(#[trigger] keys[i], #[trigger] keys[j]) < 0
}

/// Whether page `j` of level `k` is where a key belongs: nothing before it holds the key,
/// and nothing after it does.
pub open spec fn home(s: TreeShape, e: SharedEncoding, k: int, j: int, key: Seq<u8>) -> bool {
    &&& 0 <= j < s.levels[k].len()
    &&& j > 0 ==> e.inner.sign(s.first_key(k, j), key) <= 0
    &&& j + 1 < s.levels[k].len() ==> e.inner.sign(s.first_key(k, j + 1), key) > 0
}

/// How many keys sort below a key, or at or below it.
pub open spec fn is_bound(
    e: SharedEncoding,
    keys: Seq<Seq<u8>>,
    key: Seq<u8>,
    upper: bool,
    n: int,
) -> bool {
    &&& 0 <= n <= keys.len()
    &&& forall|i: int|
        0 <= i < n ==> (e.inner.sign(#[trigger] keys[i], key) < 0 || (upper && e.inner.sign(
            keys[i],
            key,
        ) == 0))
    &&& forall|i: int|
        n <= i < keys.len() ==> (e.inner.sign(#[trigger] keys[i], key) > 0 || (!upper
            && e.inner.sign(keys[i], key) == 0))
}

/// The child of a key's home that holds the last separator at or below the key is the
/// key's home one level down.
pub proof fn lemma_descend(
    s: TreeShape,
    e: SharedEncoding,
    k: int,
    j: int,
    key: Seq<u8>,
    c: int,
)
    requires
        s.is_tree(),
        !s.is_hollow(),
        sorted_rows(e, s.rows),
        encoding::lawful(&**e.inner),
        e.inner.accepts(key),
        0 < k < s.levels.len(),
        home(s, e, k, j, key),
        0 <= c < s.levels[k][j].count,
        // `c` is the last separator at or below the key, or the first when there is none.
        c > 0 ==> e.inner.sign(node_keys(s, k, j)[c], key) <= 0,
        c + 1 < s.levels[k][j].count ==> e.inner.sign(node_keys(s, k, j)[c + 1], key) > 0,
    ensures
        home(s, e, k - 1, s.levels[k][j].first + c, key),
{
    assert(s.tiled(k));
    assert(s.tiled(k - 1));
    lemma_tiles_inside(s, k, j);
    let n = s.levels[k][j];
    let at = n.first + c;
    if at > 0 {
        if c == 0 {
            assert(j > 0) by {
                if j == 0 {
                    assert(n.first == 0);
                }
            }
            assert(s.first_key(k, j) == s.first_key(k - 1, at));
        } else {
            assert(node_keys(s, k, j)[c] == s.first_key(k - 1, at));
        }
    }
    if at + 1 < s.levels[k - 1].len() {
        if c + 1 < n.count {
            assert(node_keys(s, k, j)[c + 1] == s.first_key(k - 1, at + 1));
        } else {
            assert(n.first + n.count == at + 1);
            assert(j + 1 < s.levels[k].len());
            assert(s.first_key(k, j + 1) == s.first_key(k - 1, at + 1));
        }
    }
}

/// Rows before a key's home leaf are below the key, and rows after it are above.
pub proof fn lemma_home_leaf(s: TreeShape, e: SharedEncoding, j: int, key: Seq<u8>)
    requires
        s.is_tree(),
        !s.is_hollow(),
        sorted_rows(e, s.rows),
        encoding::lawful(&**e.inner),
        e.inner.accepts(key),
        home(s, e, 0, j, key),
    ensures
        forall|i: int|
            0 <= i < s.levels[0][j].first ==> e.inner.sign((#[trigger] s.rows[i]).key, key) < 0,
        forall|i: int|
            s.levels[0][j].first + s.levels[0][j].count <= i < s.rows.len() ==> e.inner.sign(
                (#[trigger] s.rows[i]).key,
                key,
            ) > 0,
{
    assert(s.tiled(0));
    lemma_tiles_inside(s, 0, j);
    let n = s.levels[0][j];
    assert forall|i: int| 0 <= i < n.first implies e.inner.sign((#[trigger] s.rows[i]).key, key)
        < 0 by {
        assert(j > 0);
        let f = s.rows[n.first].key;
        assert(e.inner.sign(s.rows[i].key, f) < 0);
        assert(s.first_key(0, j) == f);
        assert(e.inner.sign(f, key) <= 0);
        assert(e.inner.sign(s.rows[i].key, key) <= 0);
    }
    assert forall|i: int| n.first + n.count <= i < s.rows.len() implies e.inner.sign(
        (#[trigger] s.rows[i]).key,
        key,
    ) > 0 by {
        assert(j + 1 < s.levels[0].len());
        let f = s.rows[s.levels[0][j + 1].first].key;
        assert(s.first_key(0, j + 1) == f);
        assert(s.levels[0][j + 1].first <= i) by {
            assert(n.first + n.count == s.levels[0][j + 1].first);
        }
        lemma_tiles_inside(s, 0, j + 1);
        assert(e.inner.accepts(f));
        assert(e.inner.accepts(s.rows[i].key));
        assert(e.inner.sign(key, f) < 0);
        if i == s.levels[0][j + 1].first {
            assert(s.rows[i].key == f);
        } else {
            assert(e.inner.sign(f, s.rows[i].key) < 0);
        }
        assert(e.inner.sign(f, s.rows[i].key) <= 0) by {
            if i == s.levels[0][j + 1].first {
                assert(e.inner.sign(f, f) == 0);
            }
        }
        assert(e.inner.sign(key, s.rows[i].key) < 0);
    }
}

/// The leaf that a row is on.
pub proof fn lemma_row_leaf(s: TreeShape, q: int, from: int) -> (j: int)
    requires
        s.is_tree(),
        0 <= q < s.rows.len(),
        0 <= from < s.levels[0].len(),
        s.levels[0][from].first <= q,
    ensures
        from <= j < s.levels[0].len(),
        s.levels[0][j].first <= q < s.levels[0][j].first + s.levels[0][j].count,
    decreases s.levels[0].len() - from,
{
    assert(s.tiled(0));
    assert(s.run_ok(0, from));
    let n = s.levels[0][from];
    if q < n.first + n.count {
        from
    } else {
        lemma_row_leaf(s, q, from + 1)
    }
}

/// The first page of each level of two trees with one root is the same page.
proof fn lemma_first_pages(
    s: TreeShape,
    t: TreeShape,
    e: SharedEncoding,
    a: NodeLayout,
    b: NodeLayout,
    pages: Pages,
    root: PageOrdinal,
    d: int,
)
    requires
        tree_ok(s, e, a, pages, root),
        tree_ok(t, e, b, pages, root),
        0 <= d < s.levels.len(),
    ensures
        d < t.levels.len(),
        s.levels[s.levels.len() - 1 - d].len() > 0,
        t.levels[t.levels.len() - 1 - d].len() > 0,
        s.levels[s.levels.len() - 1 - d][0].ordinal == t.levels[t.levels.len() - 1 - d][0].ordinal,
    decreases d,
{
    if d > 0 {
        lemma_first_pages(s, t, e, a, b, pages, root, d - 1);
        let (k, l) = (s.levels.len() - d, t.levels.len() - d);
        assert(node_ok(s, e, a, pages, k, 0));
        assert(node_ok(t, e, b, pages, l, 0));
        let p = pages[s.levels[k][0].ordinal];
        assert(node::page_kind(p) == NodeKind::Internal);
        assert(s.tiled(k));
        assert(s.run_ok(k, 0));
        assert(l > 0);
        assert(t.tiled(l));
        assert(t.run_ok(l, 0));
        assert(s.tiled(k - 1) && t.tiled(l - 1));
        assert(node::internal_entry_at(p, 0) is Some);
        assert(s.levels[k - 1][0].ordinal == node::internal_entry_at(p, 0)->Some_0.child);
        assert(t.levels[l - 1][0].ordinal == node::internal_entry_at(p, 0)->Some_0.child);
    }
}

/// The leaves of two trees with one root are the same pages.
proof fn lemma_same_leaf(
    s: TreeShape,
    t: TreeShape,
    e: SharedEncoding,
    a: NodeLayout,
    b: NodeLayout,
    pages: Pages,
    root: PageOrdinal,
    j: int,
)
    requires
        tree_ok(s, e, a, pages, root),
        tree_ok(t, e, b, pages, root),
        s.levels.len() == t.levels.len(),
        0 <= j < s.levels[0].len(),
    ensures
        j < t.levels[0].len(),
        s.levels[0][j] == t.levels[0][j],
        (j + 1 == s.levels[0].len()) == (j + 1 == t.levels[0].len()),
    decreases j,
{
    if j == 0 {
        lemma_first_pages(s, t, e, a, b, pages, root, s.levels.len() - 1);
    } else {
        lemma_same_leaf(s, t, e, a, b, pages, root, j - 1);
        assert(node_ok(s, e, a, pages, 0, j - 1));
        assert(node_ok(t, e, b, pages, 0, j - 1));
        assert(s.tiled(0));
        assert(s.run_ok(0, j - 1));
        assert(t.tiled(0));
        assert(t.run_ok(0, j - 1));
    }
    assert(node_ok(s, e, a, pages, 0, j));
    assert(node_ok(t, e, b, pages, 0, j));
    let (m, n) = (s.levels[0][j], t.levels[0][j]);
    assert(m.ordinal == n.ordinal);
    assert(m.count >= 0 && n.count >= 0) by {
        if !s.is_hollow() {
            assert(s.tiled(0));
            assert(s.run_ok(0, j));
        }
        if !t.is_hollow() {
            assert(t.tiled(0));
            assert(t.run_ok(0, j));
        }
    }
    assert(node_keys(s, 0, j).len() == m.count);
    assert(node_keys(t, 0, j).len() == n.count);
    if j == 0 {
        assert(m.first == 0 && n.first == 0) by {
            if !s.is_hollow() {
                assert(s.tiled(0));
            }
            if !t.is_hollow() {
                assert(t.tiled(0));
            }
        }
    }
}

/// Pages hold one tree at a root: whatever the shapes, the leaves, the values of the rows, and
/// the keys where they are stored are the same.
pub proof fn lemma_one_tree(
    s: TreeShape,
    t: TreeShape,
    e: SharedEncoding,
    a: NodeLayout,
    b: NodeLayout,
    pages: Pages,
    root: PageOrdinal,
)
    requires
        tree_ok(s, e, a, pages, root),
        tree_ok(t, e, b, pages, root),
    ensures
        a == b,
        s.levels[0] == t.levels[0],
        s.rows.len() == t.rows.len(),
        forall|q: int| 0 <= q < s.rows.len() ==> #[trigger] s.rows[q].value == t.rows[q].value,
        !a.omitted_keys ==> s.rows == t.rows,
{
    let (m, n) = (s.levels.len() as int, t.levels.len() as int);
    lemma_first_pages(s, t, e, a, b, pages, root, m - 1);
    lemma_first_pages(t, s, e, b, a, pages, root, n - 1);
    let l = s.levels[0];
    assert(l.len() > 0);
    lemma_same_leaf(s, t, e, a, b, pages, root, l.len() - 1);
    assert forall|j: int| 0 <= j < l.len() implies #[trigger] l[j] == t.levels[0][j] by {
        lemma_same_leaf(s, t, e, a, b, pages, root, j);
    }
    assert(l =~= t.levels[0]);
    assert(node_ok(s, e, a, pages, 0, 0));
    assert(node_ok(t, e, b, pages, 0, 0));
    let last = l.len() - 1;
    if s.is_hollow() {
        assert(l[0].count == 0);
        if !t.is_hollow() {
            assert(t.tiled(0));
            assert(t.run_ok(0, 0));
        }
    } else {
        assert(s.tiled(0));
        assert(s.run_ok(0, last));
        if !t.is_hollow() {
            assert(t.tiled(0));
            assert(t.run_ok(0, last));
        }
    }
    assert forall|q: int| 0 <= q < s.rows.len() implies #[trigger] s.rows[q].value
        == t.rows[q].value && (!a.omitted_keys ==> s.rows[q].key == t.rows[q].key) by {
        assert(s.tiled(0));
        let j = lemma_row_leaf(s, q, 0);
        let i = q - l[j].first;
        let p = pages[l[j].ordinal];
        assert(node_ok(s, e, a, pages, 0, j));
        assert(node_ok(t, e, b, pages, 0, j));
        assert(value_ok(pages, p, i, s.rows[l[j].first + i].value));
        assert(value_ok(pages, p, i, t.rows[l[j].first + i].value));
        assert(node_keys(s, 0, j)[i] == s.rows[q].key);
        assert(node_keys(t, 0, j)[i] == t.rows[q].key);
        if !a.omitted_keys {
            assert(node::entry_key_at(p, i) == node_keys(s, 0, j)[i]);
            assert(node::entry_key_at(p, i) == node_keys(t, 0, j)[i]);
        }
    }
    if !a.omitted_keys {
        assert forall|q: int| 0 <= q < s.rows.len() implies #[trigger] s.rows[q] == t.rows[q] by {
            assert(s.rows[q].value == t.rows[q].value);
        }
        assert(s.rows =~= t.rows);
    }
}

} // verus!

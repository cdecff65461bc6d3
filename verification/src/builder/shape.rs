//! The shape of a tree that has been written.
//!
//! When every level has written everything it was fed, and the topmost has written one
//! page, the pages of the levels hold a tree of the rows.

use vstd::prelude::*;

use super::level::{self, Level, Style};
use super::tree;
use crate::encoding::{self, KeyEncoding, SharedEncoding};
use crate::format::bytes;
use crate::format::node::{self, NodeKind, NodeLayout};
use crate::format::pageref::PageRef;
use crate::format::PageOrdinal;
use crate::model::{self, Pages, Row, TreeShape};

verus! {

broadcast use crate::format::group_format;

/// How level `k` of a tree is written.
pub open spec fn style_of(layout: NodeLayout, encoding: SharedEncoding, k: int) -> Style {
    Style {
        kind: if k == 0 {
            NodeKind::Leaf
        } else {
            NodeKind::Internal
        },
        layout,
        encoding,
    }
}

/// Whether every level has written everything it was fed.
pub open spec fn finished(
    levels: Seq<Level>,
    rows: Seq<Row>,
    layout: NodeLayout,
    encoding: SharedEncoding,
    pages: Seq<Seq<u8>>,
    offsets: Seq<u64>,
) -> bool {
    &&& 1 <= levels.len() <= model::MAX_LEVELS
    &&& forall|k: int|
        0 <= k < levels.len() ==> #[trigger] level_done(levels, layout, encoding, pages, offsets, k)
    &&& tree::fed_rows(levels[0].fed@, rows)
    &&& forall|k: int|
        1 <= k < levels.len() ==> #[trigger] tree::fed_pages(levels[k].fed@, levels[k - 1].done@)
    &&& forall|k: int| 1 <= k < levels.len() ==> #[trigger] tree::all_fed(levels, k)
    &&& levels.last().done@.len() == 1
    &&& rows.len() > 0
    &&& layout.valid()
    &&& layout.omitted_keys ==> encoding.inner.exact()
}

/// Whether level `k` has written everything it was fed.
pub open spec fn level_done(
    levels: Seq<Level>,
    layout: NodeLayout,
    encoding: SharedEncoding,
    pages: Seq<Seq<u8>>,
    offsets: Seq<u64>,
    k: int,
) -> bool {
    levels[k].ok(style_of(layout, encoding, k), pages, offsets) && levels[k].pending() == 0
}

/// The shape of the tree that levels have written.
pub open spec fn shape_of(levels: Seq<Level>, rows: Seq<Row>) -> TreeShape {
    TreeShape {
        rows,
        levels: Seq::new(
            levels.len(),
            |k: int| Seq::new(levels[k].done@.len(), |j: int| levels[k].done@[j].node),
        ),
    }
}

/// Every level was fed something.
proof fn lemma_fed(
    levels: Seq<Level>,
    rows: Seq<Row>,
    layout: NodeLayout,
    encoding: SharedEncoding,
    pages: Seq<Seq<u8>>,
    offsets: Seq<u64>,
    k: int,
)
    requires
        finished(levels, rows, layout, encoding, pages, offsets),
        0 <= k < levels.len(),
    ensures
        levels[k].fed@.len() > 0,
        levels[k].done@.len() > 0,
        level::written(levels[k].done@) == levels[k].fed@.len(),
    decreases k,
{
    assert(level_done(levels, layout, encoding, pages, offsets, k));
    if k > 0 {
        lemma_fed(levels, rows, layout, encoding, pages, offsets, k - 1);
        assert(tree::all_fed(levels, k));
    }
}

/// The levels cut what they were fed into runs.
proof fn lemma_tiled(
    levels: Seq<Level>,
    rows: Seq<Row>,
    layout: NodeLayout,
    encoding: SharedEncoding,
    pages: Seq<Seq<u8>>,
    offsets: Seq<u64>,
    k: int,
)
    requires
        finished(levels, rows, layout, encoding, pages, offsets),
        0 <= k < levels.len(),
    ensures
        shape_of(levels, rows).tiled(k),
{
    let s = shape_of(levels, rows);
    let style = style_of(layout, encoding, k);
    let done = levels[k].done@;
    lemma_fed(levels, rows, layout, encoding, pages, offsets, k);
    assert(level_done(levels, layout, encoding, pages, offsets, k));
    assert(s.below(k) == levels[k].fed@.len()) by {
        if k > 0 {
            assert(tree::all_fed(levels, k));
        }
    }
    assert(level::built_ok(style, pages, levels[k].fed@, done, 0));
    assert forall|j: int| 0 <= j < s.levels[k].len() implies #[trigger] s.run_ok(k, j) by {
        assert(level::built_ok(style, pages, levels[k].fed@, done, j));
        if j + 1 < done.len() {
            assert(level::built_ok(style, pages, levels[k].fed@, done, j + 1));
        }
    }
}

/// The first key at or below a page is the key the page was promoted with.
proof fn lemma_first_key(
    levels: Seq<Level>,
    rows: Seq<Row>,
    layout: NodeLayout,
    encoding: SharedEncoding,
    pages: Seq<Seq<u8>>,
    offsets: Seq<u64>,
    k: int,
    j: int,
)
    requires
        finished(levels, rows, layout, encoding, pages, offsets),
        0 <= k < levels.len(),
        0 <= j < levels[k].done@.len(),
    ensures
        shape_of(levels, rows).first_key(k, j) == levels[k].done@[j].key,
    decreases k,
{
    let s = shape_of(levels, rows);
    let style = style_of(layout, encoding, k);
    assert(level_done(levels, layout, encoding, pages, offsets, k));
    assert(level::built_ok(style, pages, levels[k].fed@, levels[k].done@, j));
    let f = levels[k].done@[j].node.first;
    assert(s.levels[k][j].first == f);
    if k == 0 {
        assert(levels[0].fed@[f].key == rows[f].key);
    } else {
        assert(tree::fed_pages(levels[k].fed@, levels[k - 1].done@));
        assert(levels[k].fed@[f].key == levels[k - 1].done@[f].key);
        lemma_first_key(levels, rows, layout, encoding, pages, offsets, k - 1, f);
    }
}

/// The key of a thing below a level is the key the level was fed.
proof fn lemma_key_below(
    levels: Seq<Level>,
    rows: Seq<Row>,
    layout: NodeLayout,
    encoding: SharedEncoding,
    pages: Seq<Seq<u8>>,
    offsets: Seq<u64>,
    k: int,
    i: int,
)
    requires
        finished(levels, rows, layout, encoding, pages, offsets),
        0 <= k < levels.len(),
        0 <= i < levels[k].fed@.len(),
    ensures
        shape_of(levels, rows).key_below(k, i) == levels[k].fed@[i].key,
{
    if k == 0 {
        assert(levels[0].fed@[i].key == rows[i].key);
    } else {
        assert(tree::fed_pages(levels[k].fed@, levels[k - 1].done@));
        assert(levels[k].fed@[i].key == levels[k - 1].done@[i].key);
        lemma_first_key(levels, rows, layout, encoding, pages, offsets, k - 1, i);
    }
}

/// Two numbers with the same eight bytes are the same.
proof fn lemma_le8_same(a: u64, b: u64)
    requires
        bytes::le8(a as int) == bytes::le8(b as int),
    ensures
        a == b,
{
    let s = bytes::le8(a as int);
    assert(s.subrange(0, 8) =~= s);
    bytes::lemma_u64_read_back(s, 0, a as int);
    bytes::lemma_u64_read_back(s, 0, b as int);
}

/// The value of a row is where its entry says.
proof fn lemma_value(
    style: Style,
    pages: Seq<Seq<u8>>,
    m: super::page::PageModel,
    i: int,
    t: level::Thing,
)
    requires
        m.wf(),
        m.kind == NodeKind::Leaf,
        style.kind == NodeKind::Leaf,
        0 <= i < m.entries.len(),
        level::thing_stored(style, pages, m.entries[i], t),
    ensures
        model::value_ok(model::page_map(pages), m.image(), i, t.value),
{
    m.lemma_decodes();
    let e = m.entries[i];
    assert(node::leaf_entry_at(m.image(), i) is Some);
    if e.overflow {
        let o = choose|o: PageOrdinal|
            #![trigger o.get()]
            o.get() < pages.len() && e.tail == bytes::le8(o.get() as int) && pages[o.get() as int]
                == level::blob_image(t.value) && crate::format::PAGE_PREFIX_LEN
                + t.value.len() <= 0x7FFF_FFFF;
        let entry = node::leaf_entry_at(m.image(), i)->Some_0;
        match entry.value {
            node::LeafValue::Overflow { page } => {
                lemma_le8_same(page.get(), o.get());
                assert(page == o) by {
                    assert(PageOrdinal::spec_new(page.get()) == page);
                    assert(PageOrdinal::spec_new(o.get()) == o);
                }
                level::lemma_blob(t.value);
            },
            _ => {},
        }
    }
}

/// The reference to a row's value is the one to its entry.
pub proof fn lemma_located(
    levels: Seq<Level>,
    rows: Seq<Row>,
    layout: NodeLayout,
    encoding: SharedEncoding,
    pages: Seq<Seq<u8>>,
    offsets: Seq<u64>,
    q: int,
    r: PageRef,
)
    requires
        finished(levels, rows, layout, encoding, pages, offsets),
        level::located(levels[0].done@, levels[0].fed@, q, r),
    ensures
        model::row_ref(shape_of(levels, rows), model::page_map(pages), q, r),
{
    let (done, fed) = (levels[0].done@, levels[0].fed@);
    let style = style_of(layout, encoding, 0);
    let map = model::page_map(pages);
    assert(level_done(levels, layout, encoding, pages, offsets, 0));
    let j = choose|j: int| 0 <= j < done.len() && #[trigger] level::value_at(done[j], fed, q, r);
    assert(level::built_ok(style, pages, fed, done, j));
    let m = done[j].model;
    let n = done[j].node;
    let i = q - n.first;
    m.lemma_decodes();
    let e = m.entries[i];
    assert(map[n.ordinal] == m.image());
    assert(level::thing_stored(style, pages, e, fed[n.first + i]));
    assert(node::leaf_entry_at(m.image(), i) is Some);
    let entry = node::leaf_entry_at(m.image(), i)->Some_0;
    if e.overflow {
        let v = fed[q].value;
        let o = choose|o: PageOrdinal|
            #![trigger o.get()]
            o.get() < pages.len() && e.tail == bytes::le8(o.get() as int) && pages[o.get() as int]
                == level::blob_image(v) && crate::format::PAGE_PREFIX_LEN + v.len() <= 0x7FFF_FFFF;
        match entry.value {
            node::LeafValue::Overflow { page } => {
                lemma_le8_same(page.get(), o.get());
                lemma_le8_same(page.get(), r.page.get());
                assert(page == r.page && page == o) by {
                    assert(PageOrdinal::spec_new(page.get()) == page);
                    assert(PageOrdinal::spec_new(o.get()) == o);
                    assert(PageOrdinal::spec_new(r.page.get()) == r.page);
                }
                level::lemma_blob(v);
                assert(map[page] == level::blob_image(v));
            },
            _ => {},
        }
    }
    assert(model::entry_ref(map, n.ordinal, i) == Some(r));
    assert(shape_of(levels, rows).levels[0][j] == n);
    assert(model::ref_at(shape_of(levels, rows), map, q, r, j));
}

/// Each page of a level is the page the shape says.
proof fn lemma_node(
    levels: Seq<Level>,
    rows: Seq<Row>,
    layout: NodeLayout,
    encoding: SharedEncoding,
    pages: Seq<Seq<u8>>,
    offsets: Seq<u64>,
    k: int,
    j: int,
)
    requires
        finished(levels, rows, layout, encoding, pages, offsets),
        0 <= k < levels.len(),
        0 <= j < levels[k].done@.len(),
    ensures
        model::node_ok(
            shape_of(levels, rows),
            encoding,
            layout,
            model::page_map(pages),
            k,
            j,
        ),
{
    let s = shape_of(levels, rows);
    let style = style_of(layout, encoding, k);
    let fed = levels[k].fed@;
    let done = levels[k].done@;
    let b = done[j];
    let n = b.node;
    let m = b.model;
    let p = m.image();
    let map = model::page_map(pages);
    assert(level_done(levels, layout, encoding, pages, offsets, k));
    assert(level::built_ok(style, pages, fed, done, j));
    m.lemma_decodes();
    assert(s.levels[k][j] == n);
    assert(map[n.ordinal] == p);
    let keys = model::node_keys(s, k, j);
    assert forall|i: int| 0 <= i < n.count implies #[trigger] keys[i] == fed[n.first + i].key by {
        lemma_key_below(levels, rows, layout, encoding, pages, offsets, k, n.first + i);
    }
    let digests = level::thing_digests(style, fed.subrange(n.first, n.first + n.count));
    assert(digests.len() == n.count);
    assert forall|i: int| 0 <= i < keys.len() implies #[trigger] node::page_digests(p)[i]
        == encoding.inner.digest_of(keys[i]) by {
        assert(keys[i] == fed[n.first + i].key);
        assert(digests[i] == encoding.inner.digest_of(fed[n.first + i].key));
        crate::format::eytzinger::lemma_complete_height(n.count as nat);
    }
    crate::format::eytzinger::lemma_complete_height(n.count as nat);
    if !layout.omitted_keys {
        assert forall|i: int| 0 <= i < keys.len() implies #[trigger] node::entry_key_at(p, i)
            == keys[i] by {
            assert(level::thing_stored(style, pages, m.entries[i], fed[n.first + i]));
            assert(keys[i] == fed[n.first + i].key);
        }
    }
    assert(model::keys_ok(encoding, layout, p, keys));
    if k == 0 {
        assert forall|i: int| 0 <= i < n.count implies #[trigger] model::value_ok(
            map,
            p,
            i,
            s.rows[n.first + i].value,
        ) by {
            assert(level::thing_stored(style, pages, m.entries[i], fed[n.first + i]));
            lemma_value(style, pages, m, i, fed[n.first + i]);
            assert(fed[n.first + i].value == rows[n.first + i].value);
        }
    } else {
        assert forall|i: int| 0 <= i < n.count implies (#[trigger] node::internal_entry_at(
            p,
            i,
        ) matches Some(entry) && entry.child == s.levels[k - 1][n.first + i].ordinal) by {
            assert(level::thing_stored(style, pages, m.entries[i], fed[n.first + i]));
            let entry = node::internal_entry_at(p, i)->Some_0;
            let o = fed[n.first + i].ordinal;
            lemma_le8_same(entry.child.get(), o.get());
            assert(PageOrdinal::spec_new(entry.child.get()) == entry.child);
            assert(PageOrdinal::spec_new(o.get()) == o);
            assert(tree::fed_pages(fed, levels[k - 1].done@));
        }
    }
}

/// The pages of levels that have written everything hold a tree of the rows.
pub proof fn lemma_tree(
    levels: Seq<Level>,
    rows: Seq<Row>,
    layout: NodeLayout,
    encoding: SharedEncoding,
    pages: Seq<Seq<u8>>,
    offsets: Seq<u64>,
)
    requires
        finished(levels, rows, layout, encoding, pages, offsets),
        model::sorted_rows(encoding, rows),
        encoding::lawful(&**encoding.inner),
    ensures
        model::tree_ok(
            shape_of(levels, rows),
            encoding,
            layout,
            model::page_map(pages),
            levels.last().done@[0].node.ordinal,
        ),
{
    let s = shape_of(levels, rows);
    let map: Pages = model::page_map(pages);
    assert forall|k: int| 0 <= k < s.levels.len() implies #[trigger] s.tiled(k) by {
        lemma_tiled(levels, rows, layout, encoding, pages, offsets, k);
    }
    assert forall|k: int, j: int|
        0 <= k < s.levels.len() && 0 <= j < s.levels[k].len() implies #[trigger] model::node_ok(
        s,
        encoding,
        layout,
        map,
        k,
        j,
    ) by {
        lemma_node(levels, rows, layout, encoding, pages, offsets, k, j);
    }
    assert(model::tree_ok(s, encoding, layout, map, levels.last().done@[0].node.ordinal));
}

/// What the entries of a leaf page take is what its rows take.
proof fn lemma_taken(
    style: Style,
    pages: Seq<Seq<u8>>,
    b: level::Built,
    fed: Seq<level::Thing>,
    rows: Seq<Row>,
    n: nat,
)
    requires
        style.kind == NodeKind::Leaf,
        b.model.wf(),
        b.model.kind == NodeKind::Leaf,
        n <= b.model.entries.len(),
        0 <= b.node.first,
        b.node.first + b.model.entries.len() <= fed.len(),
        tree::fed_rows(fed, rows),
        forall|i: int|
            0 <= i < b.model.entries.len() ==> #[trigger] level::thing_stored(
                style,
                pages,
                b.model.entries[i],
                fed[b.node.first + i],
            ),
    ensures
        super::page::payload(b.model.entries, n).len() == model::leaf_taken(
            style.layout,
            b.model.image(),
            rows,
            b.node.first,
            n,
        ),
        forall|i: int|
            0 <= i < b.model.entries.len() ==> (#[trigger] model::kept_inline(b.model.image(), i))
                == !b.model.entries[i].overflow,
    decreases n,
{
    b.model.lemma_decodes();
    if n > 0 {
        lemma_taken(style, pages, b, fed, rows, (n - 1) as nat);
        let i = n - 1;
        assert(level::thing_stored(style, pages, b.model.entries[i], fed[b.node.first + i]));
        assert(model::kept_inline(b.model.image(), n - 1) == !b.model.entries[n - 1].overflow);
    }
}

/// The values on the leaves of levels that have written everything are those that can be there.
pub proof fn lemma_packed(
    levels: Seq<Level>,
    rows: Seq<Row>,
    layout: NodeLayout,
    encoding: SharedEncoding,
    pages: Seq<Seq<u8>>,
    offsets: Seq<u64>,
    size: int,
)
    requires
        finished(levels, rows, layout, encoding, pages, offsets),
        levels[0].packed(layout, size),
    ensures
        model::packed(shape_of(levels, rows), layout, model::page_map(pages), size),
{
    let s = shape_of(levels, rows);
    let map = model::page_map(pages);
    let style = style_of(layout, encoding, 0);
    let fed = levels[0].fed@;
    let done = levels[0].done@;
    assert(level_done(levels, layout, encoding, pages, offsets, 0));
    assert forall|j: int, i: int|
        0 <= j < s.levels[0].len() && 0 <= i
            < s.levels[0][j].count implies #[trigger] model::row_packed(
        s,
        layout,
        map,
        size,
        j,
        i,
    ) by {
        let b = done[j];
        assert(level::built_ok(style, pages, fed, done, j));
        assert(s.levels[0][j] == b.node);
        assert(map[b.node.ordinal] == b.model.image());
        lemma_taken(style, pages, b, fed, rows, i as nat);
        assert(level::spilled(layout, size, b.model.entries, i, fed[b.node.first + i].value));
        assert(level::thing_stored(style, pages, b.model.entries[i], fed[b.node.first + i]));
        assert(model::kept_inline(b.model.image(), i) == !b.model.entries[i].overflow);
    }
}

} // verus!

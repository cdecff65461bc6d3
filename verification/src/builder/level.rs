//! One level of a tree that is being written.
//!
//! A level is fed things in key order: rows for the leaves, pages for the levels above.
//! It packs them into a page until the next one does not fit; the page is then written,
//! and its right-sibling pointer is patched into the page before it.

use vstd::prelude::*;

use super::page::{self, encode_page, EntryBytes, PageModel, PageParts};
use super::sink::{self, PageSink};
use super::scratch::Scratch;
use super::target::{self, BuildTarget};
use crate::encoding::{KeyEncoding, SharedEncoding};
use crate::error::{Error, ErrorKind, Words};
use crate::format::bytes;
use crate::format::node::{self, NodeKind, NodeLayout};
use crate::format::pageref::PageRef;
use crate::format::{
    PageLocalOffset, PageOrdinal, MAX_COMPACT_PAGE_SIZE, PAGE_PREFIX_LEN, RIGHT_SIBLING_OFFSET,
};
use crate::model::{self, Node};

verus! {

broadcast use crate::format::group_format;

/// Something a level is fed: a row, or a page of the level below with its first key.
pub struct Thing {
    pub key: Seq<u8>,
    pub value: Seq<u8>,
    pub ordinal: PageOrdinal,
}

/// A page a level has written.
pub struct Built {
    pub node: Node,
    pub key: Seq<u8>,
    pub model: PageModel,
}

/// How a level reads and writes its pages.
pub struct Style {
    pub kind: NodeKind,
    pub layout: NodeLayout,
    pub encoding: SharedEncoding,
}

/// The bytes of a blob page.
pub open spec fn blob_image(value: Seq<u8>) -> Seq<u8> {
    bytes::le4(PAGE_PREFIX_LEN + value.len()) + bytes::le4(0) + bytes::le4(0) + bytes::le8(-1)
        + bytes::le8(-1) + value
}

/// A blob page decodes to its value.
pub proof fn lemma_blob(value: Seq<u8>)
    requires
        PAGE_PREFIX_LEN + value.len() <= 0x7FFF_FFFF,
    ensures
        model::blob_ok(blob_image(value), value),
        blob_image(value).len() == PAGE_PREFIX_LEN + value.len(),
        bytes::i32_at(blob_image(value), 0) == blob_image(value).len(),
        node::page_count(blob_image(value)) == 0,
{
    let p = blob_image(value);
    assert(p.subrange(0, 4) =~= bytes::le4(PAGE_PREFIX_LEN + value.len()));
    assert(p.subrange(4, 8) =~= bytes::le4(0));
    assert(p.subrange(8, 12) =~= bytes::le4(0));
    assert(p.subrange(12, 20) =~= bytes::le8(-1));
    assert(p.subrange(20, 28) =~= bytes::le8(-1));
    bytes::lemma_u32_read_back(p, 0, PAGE_PREFIX_LEN + value.len());
    bytes::lemma_u32_read_back(p, 4, 0);
    bytes::lemma_u32_read_back(p, 8, 0);
    bytes::lemma_u64_read_back(p, 12, -1);
    bytes::lemma_u64_read_back(p, 20, -1);
    assert(p.subrange(28, p.len() as int) =~= value);
}

/// Whether an entry stores a key, or nothing where keys are omitted.
pub open spec fn key_stored(layout: NodeLayout, e: EntryBytes, key: Seq<u8>) -> bool {
    e.key == (if layout.omitted_keys {
        Seq::empty()
    } else {
        key
    })
}

/// Whether an entry stores a row's value, inline or on a blob page.
pub open spec fn value_stored(pages: Seq<Seq<u8>>, e: EntryBytes, value: Seq<u8>) -> bool {
    if e.overflow {
        exists|o: PageOrdinal|
            #![trigger o.get()]
            o.get() < pages.len() && e.tail == bytes::le8(o.get() as int) && pages[o.get() as int]
                == blob_image(value) && PAGE_PREFIX_LEN + value.len() <= 0x7FFF_FFFF
    } else {
        e.tail == value && value.len() < 0xFFFF
    }
}

/// What a leaf page needs for its first `i` entries and one more behind them, whose value takes
/// `value_len` bytes.
pub open spec fn leaf_need(
    layout: NodeLayout,
    entries: Seq<EntryBytes>,
    i: int,
    value_len: int,
) -> int {
    PAGE_PREFIX_LEN + layout.digest_area((i + 1) as nat) + layout.leaf_meta((i + 1) as nat)
        + page::payload(entries, i as nat).len() + entries[i].key.len() + value_len
}

/// Whether the value of a leaf entry is on a page of its own exactly where it has to be: it is
/// too long for the length that a leaf keeps of it, or it had no room behind the entries before
/// it.
pub open spec fn spilled(
    layout: NodeLayout,
    size: int,
    entries: Seq<EntryBytes>,
    i: int,
    value: Seq<u8>,
) -> bool {
    entries[i].overflow == (value.len() >= 0xFFFF || leaf_need(
        layout,
        entries,
        i,
        value.len() as int,
    ) > size)
}

/// Whether an entry stores what a level was fed.
pub open spec fn thing_stored(style: Style, pages: Seq<Seq<u8>>, e: EntryBytes, t: Thing) -> bool {
    &&& t.key.len() <= 0xFFFF
    &&& style.encoding.inner.accepts(t.key)
    &&& key_stored(style.layout, e, t.key)
    &&& match style.kind {
        NodeKind::Leaf => value_stored(pages, e, t.value),
        NodeKind::Internal => e.overflow && e.tail == bytes::le8(t.ordinal.get() as int)
            && t.ordinal.get() < 0x8000_0000,
    }
}

/// The digests of things.
pub open spec fn thing_digests(style: Style, things: Seq<Thing>) -> Seq<u64> {
    Seq::new(things.len(), |i: int| style.encoding.inner.digest_of(things[i].key))
}

/// Whether a page written is the page of the things its node says.
pub open spec fn built_ok(
    style: Style,
    pages: Seq<Seq<u8>>,
    fed: Seq<Thing>,
    done: Seq<Built>,
    j: int,
) -> bool {
    let b = done[j];
    let n = b.node;
    &&& n.ordinal.get() < pages.len()
    &&& pages[n.ordinal.get() as int] == b.model.image()
    &&& b.model.wf()
    &&& b.model.kind == style.kind
    &&& b.model.layout == style.layout
    &&& b.model.left == (if j == 0 {
        None
    } else {
        Some(done[j - 1].node.ordinal)
    })
    &&& b.model.right == (if j + 1 == done.len() {
        None
    } else {
        Some(done[j + 1].node.ordinal)
    })
    &&& 0 <= n.first
    &&& 1 <= n.count
    &&& n.first + n.count <= fed.len()
    &&& n.first == (if j == 0 {
        0
    } else {
        done[j - 1].node.first + done[j - 1].node.count
    })
    &&& b.key == fed[n.first].key
    &&& b.model.entries.len() == n.count
    &&& page::slots_ok(
        style.layout,
        b.model.slots,
        thing_digests(style, fed.subrange(n.first, n.first + n.count)),
    )
    &&& forall|i: int|
        0 <= i < n.count ==> #[trigger] thing_stored(
            style,
            pages,
            b.model.entries[i],
            fed[n.first + i],
        )
}

/// How many of the things fed have been written.
pub open spec fn written(done: Seq<Built>) -> int {
    if done.len() == 0 {
        0
    } else {
        done.last().node.first + done.last().node.count
    }
}

/// Whether thing `q` is on a page written, and this is the reference to its value.
pub open spec fn value_at(b: Built, fed: Seq<Thing>, q: int, r: PageRef) -> bool {
    let i = q - b.node.first;
    let e = b.model.entries[i];
    &&& 0 <= i < b.node.count
    &&& if e.overflow {
        &&& e.tail == bytes::le8(r.page.get() as int)
        &&& r.page.get() < 0x8000_0000
        &&& r.start == PageLocalOffset::spec_new(PAGE_PREFIX_LEN as u32)
        &&& r.length == fed[q].value.len()
    } else {
        r == PageRef {
            page: b.node.ordinal,
            start: PageLocalOffset::spec_new((b.model.offset(i) + e.key.len()) as u32),
            length: e.tail.len() as u32,
        }
    }
}

/// Whether this is the reference to the value of thing `q`, on one of the pages written.
pub open spec fn located(done: Seq<Built>, fed: Seq<Thing>, q: int, r: PageRef) -> bool {
    exists|j: int| 0 <= j < done.len() && #[trigger] value_at(done[j], fed, q, r)
}

/// Whether everything that was located still is.
pub open spec fn located_still(
    was: Seq<Built>,
    things: Seq<Thing>,
    done: Seq<Built>,
    fed: Seq<Thing>,
) -> bool {
    forall|q: int, r: PageRef|
        located(was, things, q, r) ==> #[trigger] located(done, fed, q, r)
}

/// The level being packed.
pub struct Level {
    pub parts: PageParts,
    pub first_key: Option<Vec<u8>>,
    pub prev: Option<(PageOrdinal, u64)>,
    pub fed: Ghost<Seq<Thing>>,
    pub done: Ghost<Seq<Built>>,
}

/// Whether a pending leaf entry's reference points at its value.
pub open spec fn reference_ok(
    pages: Seq<Seq<u8>>,
    reference: Option<PageRef>,
    e: EntryBytes,
    value: Seq<u8>,
) -> bool {
    match reference {
        Some(r) => {
            &&& e.overflow
            &&& e.tail == bytes::le8(r.page.get() as int)
            &&& r.page.get() < pages.len()
            &&& pages[r.page.get() as int] == blob_image(value)
            &&& r.start.get() == PAGE_PREFIX_LEN
            &&& r.length == value.len()
        },
        None => !e.overflow,
    }
}

impl Level {
    /// How many things wait for their page.
    pub open spec fn pending(&self) -> nat {
        self.parts.entries@.len()
    }

    /// Whether waiting entry `i` is the thing it was fed as.
    pub open spec fn waiting_ok(&self, style: Style, pages: Seq<Seq<u8>>, i: int) -> bool {
        let t = self.fed@[written(self.done@) + i];
        &&& thing_stored(style, pages, self.parts.entries@[i], t)
        &&& self.parts.digests@[i] == style.encoding.inner.digest_of(t.key)
        &&& style.kind == NodeKind::Leaf ==> reference_ok(
            pages,
            self.parts.overflow@[i],
            self.parts.entries@[i],
            t.value,
        )
    }

    /// Whether everything fed is either written or waiting.
    pub open spec fn ok(&self, style: Style, pages: Seq<Seq<u8>>, offsets: Seq<u64>) -> bool {
        let at = written(self.done@);
        &&& self.parts.wf()
        &&& self.fed@.len() == at + self.pending()
        &&& forall|i: int| 0 <= i < self.pending() ==> #[trigger] self.waiting_ok(style, pages, i)
        &&& self.pending() > 0 ==> (self.first_key matches Some(k) && k@ == self.fed@[at].key)
        &&& forall|j: int|
            0 <= j < self.done@.len() ==> #[trigger] built_ok(
                style,
                pages,
                self.fed@,
                self.done@,
                j,
            )
        &&& match self.prev {
            None => self.done@.len() == 0,
            Some((ordinal, offset)) => self.done@.len() > 0 && self.done@.last().node.ordinal
                == ordinal && offsets.len() == pages.len() && offsets[ordinal.get() as int]
                == offset,
        }
    }

    /// Whether the values on pages of their own are those that had no room on their leaf.
    pub open spec fn packed(&self, layout: NodeLayout, size: int) -> bool {
        let at = written(self.done@);
        &&& forall|i: int|
            0 <= i < self.pending() ==> #[trigger] spilled(
                layout,
                size,
                self.parts.entries@,
                i,
                self.fed@[at + i].value,
            )
        &&& forall|j: int, i: int|
            0 <= j < self.done@.len() && 0 <= i < self.done@[j].node.count ==> #[trigger] spilled(
                layout,
                size,
                self.done@[j].model.entries,
                i,
                self.fed@[self.done@[j].node.first + i].value,
            )
    }

    /// The ordinals of the pages this level has written.
    pub open spec fn owns(&self, o: PageOrdinal) -> bool {
        exists|j: int| 0 <= j < self.done@.len() && #[trigger] self.done@[j].node.ordinal == o
    }

    /// Whether the ordinals ascend along the level.
    pub open spec fn in_order(&self) -> bool {
        forall|i: int, j: int|
            0 <= i < j < self.done@.len() ==> (#[trigger] self.done@[i]).node.ordinal.get() < (
            #[trigger] self.done@[j]).node.ordinal.get()
    }

    pub fn new() -> (r: Level)
        ensures
            r.parts.wf(),
            r.pending() == 0,
            r.fed@.len() == 0,
            r.done@.len() == 0,
            r.prev is None,
            forall|style: Style, pages: Seq<Seq<u8>>, offsets: Seq<u64>|
                #[trigger] r.ok(style, pages, offsets),
    {
        Level {
            parts: PageParts::new(),
            first_key: None,
            prev: None,
            fed: Ghost(Seq::empty()),
            done: Ghost(Seq::empty()),
        }
    }
}

/// What was written is a part of what was fed.
pub proof fn lemma_written(l: &Level, style: Style, pages: Seq<Seq<u8>>, offsets: Seq<u64>)
    requires
        l.ok(style, pages, offsets),
    ensures
        0 <= written(l.done@) <= l.fed@.len(),
        l.done@.len() > 0 ==> written(l.done@) > 0,
{
    if l.done@.len() > 0 {
        assert(built_ok(style, pages, l.fed@, l.done@, l.done@.len() - 1));
    }
}

/// Whether pages changed only by growing and by patching one tree page.
pub open spec fn pages_kept(a: Seq<Seq<u8>>, b: Seq<Seq<u8>>, patched: Option<PageOrdinal>)
    -> bool {
    &&& a.len() <= b.len()
    &&& forall|i: int|
        0 <= i < a.len() && (patched matches Some(o) ==> o.get() != i) ==> #[trigger] b[i] == a[i]
    &&& patched matches Some(o) ==> {
        &&& o.get() < a.len()
        &&& node::page_count(a[o.get() as int]) > 0
        &&& a[o.get() as int].len() >= PAGE_PREFIX_LEN
        &&& page_sound(b[o.get() as int])
        &&& exists|x: Seq<u8>|
            x.len() == 8 && b[o.get() as int] == #[trigger] target::spliced(
                a[o.get() as int],
                RIGHT_SIBLING_OFFSET as int,
                x,
            )
    }
}

/// Whether a page is one a reader accepts.
pub open spec fn page_sound(p: Seq<u8>) -> bool {
    node::page_ok(p) && node::entries_ok(p)
}

/// Whether a reference designates a value, on a page and outside its prefix.
pub open spec fn refers_to(pages: Seq<Seq<u8>>, r: PageRef, value: Seq<u8>) -> bool {
    &&& r.page.get() < pages.len()
    &&& r.page.get() < 0x8000_0000
    &&& page_sound(pages[r.page.get() as int])
    &&& r.fits(pages[r.page.get() as int].len() as int)
    &&& r.start.get() < 0x8000_0000
    &&& r.length < 0x8000_0000
    &&& pages[r.page.get() as int].subrange(r.start.get() as int, r.start.get() + r.length)
        == value
}

/// References keep designating their values when pages grow and a sibling is patched.
pub proof fn lemma_refers_kept(
    a: Seq<Seq<u8>>,
    b: Seq<Seq<u8>>,
    patched: Option<PageOrdinal>,
    r: PageRef,
    value: Seq<u8>,
)
    requires
        pages_kept(a, b, patched),
        refers_to(a, r, value),
    ensures
        refers_to(b, r, value),
{
    let i = r.page.get() as int;
    if patched matches Some(o) && o.get() == i {
        let x = choose|x: Seq<u8>|
            x.len() == 8 && b[i] == #[trigger] target::spliced(
                a[i],
                RIGHT_SIBLING_OFFSET as int,
                x,
            );
        let (s, e) = (r.start.get() as int, r.start.get() + r.length);
        assert(b[i].subrange(s, e) =~= a[i].subrange(s, e));
    }
}

/// Values stay stored when pages grow and a tree page is patched.
pub proof fn lemma_value_kept(
    a: Seq<Seq<u8>>,
    b: Seq<Seq<u8>>,
    patched: Option<PageOrdinal>,
    e: EntryBytes,
    value: Seq<u8>,
)
    requires
        pages_kept(a, b, patched),
        value_stored(a, e, value),
    ensures
        value_stored(b, e, value),
{
    if e.overflow {
        let o = choose|o: PageOrdinal|
            #![trigger o.get()]
            o.get() < a.len() && e.tail == bytes::le8(o.get() as int) && a[o.get() as int]
                == blob_image(value) && PAGE_PREFIX_LEN + value.len() <= 0x7FFF_FFFF;
        lemma_blob(value);
        assert(b[o.get() as int] == a[o.get() as int]);
    }
}

/// A level that does not own the patched page is as it was.
pub proof fn lemma_level_kept(
    l: &Level,
    style: Style,
    a: Seq<Seq<u8>>,
    b: Seq<Seq<u8>>,
    oa: Seq<u64>,
    ob: Seq<u64>,
    patched: Option<PageOrdinal>,
)
    requires
        l.ok(style, a, oa),
        pages_kept(a, b, patched),
        patched matches Some(o) ==> !l.owns(o),
        oa.len() == a.len(),
        ob.len() == b.len(),
        forall|i: int| 0 <= i < oa.len() ==> #[trigger] ob[i] == oa[i],
    ensures
        l.ok(style, b, ob),
{
    assert forall|i: int| 0 <= i < l.pending() implies #[trigger] l.waiting_ok(style, b, i) by {
        assert(l.waiting_ok(style, a, i));
        let t = l.fed@[written(l.done@) + i];
        if style.kind == NodeKind::Leaf {
            lemma_value_kept(a, b, patched, l.parts.entries@[i], t.value);
            if let Some(r) = l.parts.overflow@[i] {
                lemma_blob(t.value);
                assert(b[r.page.get() as int] == a[r.page.get() as int]);
            }
        }
    }
    assert forall|j: int| 0 <= j < l.done@.len() implies #[trigger] built_ok(
        style,
        b,
        l.fed@,
        l.done@,
        j,
    ) by {
        assert(built_ok(style, a, l.fed@, l.done@, j));
        lemma_built_kept(style, a, b, l.fed@, l.done@, j, patched);
    }
    if l.done@.len() > 0 {
        assert(built_ok(style, a, l.fed@, l.done@, l.done@.len() - 1));
    }
}

proof fn lemma_built_kept(
    style: Style,
    a: Seq<Seq<u8>>,
    b: Seq<Seq<u8>>,
    fed: Seq<Thing>,
    done: Seq<Built>,
    j: int,
    patched: Option<PageOrdinal>,
)
    requires
        built_ok(style, a, fed, done, j),
        0 <= j < done.len(),
        pages_kept(a, b, patched),
        patched matches Some(o) ==> done[j].node.ordinal != o,
    ensures
        built_ok(style, b, fed, done, j),
{
    let n = done[j].node;
    assert(b[n.ordinal.get() as int] == a[n.ordinal.get() as int]);
    assert forall|i: int| 0 <= i < n.count implies #[trigger] thing_stored(
        style,
        b,
        done[j].model.entries[i],
        fed[n.first + i],
    ) by {
        assert(thing_stored(style, a, done[j].model.entries[i], fed[n.first + i]));
        if style.kind == NodeKind::Leaf {
            lemma_value_kept(a, b, patched, done[j].model.entries[i], fed[n.first + i].value);
        }
    }
}

/// Leaves stay packed when they are fed a row whose value is put on a page of its own exactly
/// where it has to be.
pub proof fn lemma_packed_fed(
    was: &Level,
    now: &Level,
    layout: NodeLayout,
    size: int,
    style: Style,
    pages: Seq<Seq<u8>>,
    offsets: Seq<u64>,
    e: EntryBytes,
    t: Thing,
)
    requires
        was.ok(style, pages, offsets),
        was.packed(layout, size),
        now.done@ == was.done@,
        now.fed@ == was.fed@.push(t),
        now.parts.entries@ == was.parts.entries@.push(e),
        e.overflow == (t.value.len() >= 0xFFFF || PAGE_PREFIX_LEN + layout.digest_area(
            was.pending() + 1,
        ) + layout.leaf_meta(was.pending() + 1) + was.parts.payload@.len() + e.key.len()
            + t.value.len() > size),
    ensures
        now.packed(layout, size),
{
    let at = written(was.done@);
    let n = was.pending() as int;
    lemma_written(was, style, pages, offsets);
    assert forall|i: int| 0 <= i < now.pending() implies #[trigger] spilled(
        layout,
        size,
        now.parts.entries@,
        i,
        now.fed@[at + i].value,
    ) by {
        page::lemma_payload_prefix(was.parts.entries@, now.parts.entries@, i as nat);
        if i < n {
            assert(spilled(layout, size, was.parts.entries@, i, was.fed@[at + i].value));
        }
    }
    assert forall|j: int, i: int|
        0 <= j < now.done@.len() && 0 <= i < now.done@[j].node.count implies #[trigger] spilled(
        layout,
        size,
        now.done@[j].model.entries,
        i,
        now.fed@[now.done@[j].node.first + i].value,
    ) by {
        assert(built_ok(style, pages, was.fed@, was.done@, j));
        assert(spilled(
            layout,
            size,
            was.done@[j].model.entries,
            i,
            was.fed@[was.done@[j].node.first + i].value,
        ));
    }
}

/// Leaves stay packed when a page of them is written.
pub proof fn lemma_packed_written(was: &Level, now: &Level, layout: NodeLayout, size: int)
    requires
        was.packed(layout, size),
        now.pending() == 0,
        now.fed@ == was.fed@,
        now.done@.len() == was.done@.len() + 1,
        now.done@.last().model.entries == was.parts.entries@,
        now.done@.last().node.first == written(was.done@),
        now.done@.last().node.count == was.pending(),
        forall|j: int|
            0 <= j < was.done@.len() ==> (#[trigger] now.done@[j]).node == was.done@[j].node
                && now.done@[j].model.entries == was.done@[j].model.entries,
    ensures
        now.packed(layout, size),
{
    let at = written(was.done@);
    assert forall|j: int, i: int|
        0 <= j < now.done@.len() && 0 <= i < now.done@[j].node.count implies #[trigger] spilled(
        layout,
        size,
        now.done@[j].model.entries,
        i,
        now.fed@[now.done@[j].node.first + i].value,
    ) by {
        if j < was.done@.len() {
            assert(spilled(
                layout,
                size,
                was.done@[j].model.entries,
                i,
                was.fed@[was.done@[j].node.first + i].value,
            ));
        } else {
            assert(spilled(layout, size, was.parts.entries@, i, was.fed@[at + i].value));
        }
    }
}

/// Feeding more does not change what was written.
pub proof fn lemma_built_fed(
    style: Style,
    pages: Seq<Seq<u8>>,
    fed: Seq<Thing>,
    more: Seq<Thing>,
    done: Seq<Built>,
    j: int,
)
    requires
        built_ok(style, pages, fed, done, j),
        fed.len() <= more.len(),
        forall|i: int| 0 <= i < fed.len() ==> #[trigger] more[i] == fed[i],
    ensures
        built_ok(style, pages, more, done, j),
{
    let n = done[j].node;
    assert(more.subrange(n.first, n.first + n.count) =~= fed.subrange(n.first, n.first + n.count));
    assert forall|i: int| 0 <= i < n.count implies #[trigger] thing_stored(
        style,
        pages,
        done[j].model.entries[i],
        more[n.first + i],
    ) by {
        assert(thing_stored(style, pages, done[j].model.entries[i], fed[n.first + i]));
    }
}

impl Level {
    /// Feeds the level one more thing, as an entry that has room on the page or will be
    /// found not to when the page is written.
    pub fn feed(
        &mut self,
        digest: u64,
        key: &[u8],
        stored_key: &[u8],
        tail: &[u8],
        reference: Option<PageRef>,
        Ghost(t): Ghost<Thing>,
        Ghost(style): Ghost<Style>,
        Ghost(pages): Ghost<Seq<Seq<u8>>>,
        Ghost(offsets): Ghost<Seq<u64>>,
    )
        requires
            old(self).ok(style, pages, offsets),
            t.key == key@,
            digest == style.encoding.inner.digest_of(key@),
            ({
                let e = EntryBytes {
                    key: stored_key@,
                    tail: tail@,
                    overflow: style.kind == NodeKind::Internal || reference is Some,
                };
                &&& thing_stored(style, pages, e, t)
                &&& style.kind == NodeKind::Leaf ==> reference_ok(pages, reference, e, t.value)
            }),
        ensures
            final(self).ok(style, pages, offsets),
            final(self).fed@ == old(self).fed@.push(t),
            final(self).done@ == old(self).done@,
            final(self).prev == old(self).prev,
            final(self).parts.entries@ == old(self).parts.entries@.push(
                EntryBytes {
                    key: stored_key@,
                    tail: tail@,
                    overflow: style.kind == NodeKind::Internal || reference is Some,
                },
            ),
            final(self).pending() == old(self).pending() + 1,
            final(self).parts.payload@.len() == old(self).parts.payload@.len() + stored_key@.len()
                + tail@.len(),
    {
        let ghost e = EntryBytes {
            key: stored_key@,
            tail: tail@,
            overflow: style.kind == NodeKind::Internal || reference is Some,
        };
        let ghost at = written(self.done@);
        let ghost was = *self;
        if self.parts.len() == 0 {
            self.first_key = Some(vstd::slice::slice_to_vec(key));
        }
        self.parts.add(digest, stored_key, tail, reference, Ghost(e.overflow));
        self.fed = Ghost(self.fed@.push(t));
        proof {
            if was.done@.len() > 0 {
                assert(built_ok(style, pages, was.fed@, was.done@, was.done@.len() - 1));
            }
            assert(at >= 0);
            assert forall|i: int| 0 <= i < self.pending() implies #[trigger] self.waiting_ok(
                style,
                pages,
                i,
            ) by {
                if i < was.pending() {
                    assert(was.waiting_ok(style, pages, i));
                }
            }
            assert forall|j: int| 0 <= j < self.done@.len() implies #[trigger] built_ok(
                style,
                pages,
                self.fed@,
                self.done@,
                j,
            ) by {
                assert(built_ok(style, pages, was.fed@, was.done@, j));
                lemma_built_fed(style, pages, was.fed@, self.fed@, was.done@, j);
            }
        }
    }
}

/// What writing a page did to the file.
pub open spec fn page_written<T: BuildTarget, D: Scratch>(
    a: &PageSink<T, D>,
    b: &PageSink<T, D>,
    patched: Option<PageOrdinal>,
) -> bool {
    &&& b.wf()
    &&& pages_kept(a.pages(), b.pages(), patched)
    &&& a.offsets().len() <= b.offsets().len()
    &&& forall|i: int| 0 <= i < a.offsets().len() ==> #[trigger] b.offsets()[i] == a.offsets()[i]
    &&& b.base() == a.base()
    &&& b.file().len() >= a.file().len()
    &&& b.file().subrange(0, a.base()) == a.file().subrange(0, a.base())
}

impl Level {
    /// The page the waiting entries make up.
    pub open spec fn model(&self, style: Style, slots: Seq<u64>) -> PageModel {
        page::model_of(
            style.kind,
            style.layout,
            match self.prev {
                Some((ordinal, _)) => Some(ordinal),
                None => None,
            },
            slots,
            self.parts,
        )
    }

    /// Bytes the waiting entries take as a page.
    pub open spec fn page_len(&self, style: Style) -> int {
        let n = self.pending();
        PAGE_PREFIX_LEN + style.layout.digest_area(n) + style.layout.meta_area(style.kind, n)
            + self.parts.payload@.len()
    }

    /// The waiting entries are entries of a page.
    proof fn lemma_model_wf(&self, style: Style, pages: Seq<Seq<u8>>, offsets: Seq<u64>, slots: Seq<u64>)
        requires
            self.ok(style, pages, offsets),
            style.layout.valid(),
            pages.len() <= 0x7FFF_FFFF,
            slots.len() == style.layout.slots(self.pending()),
            self.page_len(style) <= 0x7FFF_FFFF,
            style.layout.compact_meta ==> self.page_len(style) <= MAX_COMPACT_PAGE_SIZE,
        ensures
            self.model(style, slots).wf(),
            self.model(style, slots).page_len() == self.page_len(style),
    {
        let m = self.model(style, slots);
        assert forall|i: int| 0 <= i < m.count() implies #[trigger] m.entry_wf(i) by {
            assert(self.waiting_ok(style, pages, i));
            let e = m.entries[i];
            let t = self.fed@[written(self.done@) + i];
            if e.overflow {
                if style.kind == NodeKind::Leaf {
                    let o = choose|o: PageOrdinal|
                        #![trigger o.get()]
                        o.get() < pages.len() && e.tail == bytes::le8(o.get() as int)
                            && pages[o.get() as int] == blob_image(t.value) && PAGE_PREFIX_LEN
                            + t.value.len() <= 0x7FFF_FFFF;
                    assert(o.get() < 0x8000_0000_0000_0000);
                } else {
                    assert(t.ordinal.get() < 0x8000_0000_0000_0000);
                }
            }
        }
        if self.done@.len() > 0 {
            assert(built_ok(style, pages, self.fed@, self.done@, self.done@.len() - 1));
        }
    }

    /// Computes what the waiting entries take as a page; `None` when that is more than
    /// memory holds.
    pub fn needs(&self, kind: NodeKind, layout: NodeLayout, n: usize) -> (r: Option<usize>)
        requires
            self.parts.wf(),
        ensures
            ({
                let want = PAGE_PREFIX_LEN + layout.digest_area(n as nat) + layout.meta_area(
                    kind,
                    n as nat,
                ) + self.parts.payload@.len();
                match r {
                    Some(v) => v == want,
                    None => want > usize::MAX,
                }
            }),
    {
        let digest_area = layout.digest_area_size(n)?;
        let meta_area = match kind {
            NodeKind::Leaf => layout.leaf_meta_size(n),
            NodeKind::Internal => layout.internal_meta_size(n),
        };
        let meta_area = meta_area?;
        PAGE_PREFIX_LEN.checked_add(digest_area)?.checked_add(meta_area)?.checked_add(
            self.parts.payload.len(),
        )
    }

    /// Writes the waiting entries as a page, and links it to the page before it.
    pub fn write_out<T: BuildTarget, D: Scratch>(
        &mut self,
        sink: &mut PageSink<T, D>,
        kind: NodeKind,
        layout: NodeLayout,
        page_size: usize,
        Ghost(style): Ghost<Style>,
    ) -> (r: Result<(PageOrdinal, Vec<PageRef>), Error>)
        requires
            old(sink).wf(),
            old(self).ok(style, old(sink).pages(), old(sink).offsets()),
            old(self).in_order(),
            old(self).pending() > 0,
            style.kind == kind,
            style.layout == layout,
            layout.valid(),
            page_size <= 0x7FFF_FFFF,
            layout.compact_meta ==> page_size <= MAX_COMPACT_PAGE_SIZE,
        ensures
            final(sink).dependable() == old(sink).dependable(),
            final(sink).filter() == old(sink).filter(),
            match r {
                Ok((ordinal, refs)) => {
                    let patched: Option<PageOrdinal> = match old(self).prev {
                        Some((o, _)) => Some(o),
                        None => None,
                    };
                    &&& page_written(old(sink), final(sink), patched)
                    &&& sink::within(old(sink), final(sink), 1)
                    &&& ordinal.get() == old(sink).pages().len()
                    &&& final(sink).pages().len() == old(sink).pages().len() + 1
                    &&& final(self).ok(style, final(sink).pages(), final(sink).offsets())
                    &&& final(self).in_order()
                    &&& final(self).pending() == 0
                    &&& final(self).fed@ == old(self).fed@
                    &&& final(self).done@.len() == old(self).done@.len() + 1
                    &&& final(self).done@.last().node.ordinal == ordinal
                    &&& final(self).done@.last().key == old(self).fed@[written(old(self).done@)].key
                    &&& final(self).done@.last().node.count == old(self).pending()
                    &&& final(self).done@.last().node.first == written(old(self).done@)
                    &&& final(self).done@.last().model.entries == old(self).parts.entries@
                    &&& forall|j: int|
                        0 <= j < old(self).done@.len() ==> (#[trigger] final(self).done@[j]).node
                            == old(self).done@[j].node && final(self).done@[j].key
                            == old(self).done@[j].key && final(self).done@[j].model.entries
                            == old(self).done@[j].model.entries
                    &&& final(self).prev is Some
                    &&& old(self).page_len(style) <= page_size
                    &&& kind == NodeKind::Leaf ==> refs@.len() == old(self).pending() && forall|
                        i: int,
                    |
                        0 <= i < refs@.len() ==> refers_to(
                            final(sink).pages(),
                            #[trigger] refs@[i],
                            old(self).fed@[written(old(self).done@) + i].value,
                        ) && located(
                            final(self).done@,
                            final(self).fed@,
                            written(old(self).done@) + i,
                            refs@[i],
                        )
                    &&& located_still(
                        old(self).done@,
                        old(self).fed@,
                        final(self).done@,
                        final(self).fed@,
                    )
                },
                Err(e) => {
                    ||| e.kind() == ErrorKind::Io && !old(sink).dependable()
                    ||| e.kind() == ErrorKind::ValueTooLarge && old(sink).crowded(1)
                    ||| e.is_corrupt() && old(self).page_len(style) > page_size
                },
            },
    {
        let ghost was = *self;
        let ghost pages0 = sink.pages();
        let ghost offsets0 = sink.offsets();
        let ghost sink0 = *sink;
        let n = self.parts.len();
        let page_len = match self.needs(kind, layout, n) {
            Some(len) => len,
            None => usize::MAX,
        };
        if page_len > page_size {
            return Err(
                Error::corrupt_words(
                    Words::new("internal error: built a ")
                        .number(page_len as u64)
                        .say(" byte page for a ")
                        .number(page_size as u64)
                        .say(" byte page size"),
                ),
            );
        }
        let left = match self.prev {
            Some((ordinal, _)) => Some(ordinal),
            None => None,
        };
        proof {
            sink.lemma_wf();
            assert forall|slots: Seq<u64>|
                slots.len() == layout.slots(self.parts.entries@.len()) implies
                #[trigger] page::model_of(kind, layout, left, slots, self.parts).wf() by {
                self.lemma_model_wf(style, pages0, offsets0, slots);
            }
            assert forall|i: int|
                0 <= i < self.parts.entries@.len() && kind == NodeKind::Leaf implies (
            #[trigger] self.parts.overflow@[i] is Some <==> self.parts.entries@[i].overflow) by {
                assert(self.waiting_ok(style, pages0, i));
            }
        }
        let (page, slots) = encode_page(kind, layout, left, &self.parts);
        let ghost m = page::model_of(kind, layout, left, slots@, self.parts);
        proof {
            self.lemma_model_wf(style, pages0, offsets0, slots@);
            m.lemma_decodes();
        }
        let (ordinal, offset) = sink.write_page(page.as_slice())?;
        let ghost pages1 = sink.pages();
        let ghost offsets1 = sink.offsets();
        let ghost sink1 = *sink;
        proof {
            assert(sink1.file().subrange(0, sink0.base()) =~= sink0.file().subrange(
                0,
                sink0.base(),
            )) by {
                sink0.lemma_wf();
                let a = sink1.file().subrange(0, sink0.file().len() as int);
                assert forall|i: int| 0 <= i < sink0.base() implies #[trigger] sink1.file()[i]
                    == sink0.file()[i] by {
                    assert(a[i] == sink0.file()[i]);
                }
            }
        }
        if let Some((prev_ordinal, prev_offset)) = self.prev {
            proof {
                let last = was.done@.last();
                assert(built_ok(style, pages0, was.fed@, was.done@, was.done@.len() - 1));
                assert(pages1[prev_ordinal.get() as int] == pages0[prev_ordinal.get() as int]);
                lemma_linked(last.model, ordinal);
            }
            sink.patch_right_sibling(prev_ordinal, prev_offset, ordinal)?;
        }
        let ghost at = written(self.done@);
        let ghost b = Built {
            node: Node { ordinal, first: at, count: self.pending() as int },
            key: self.fed@[at].key,
            model: m,
        };
        let ghost linked = if self.done@.len() == 0 {
            self.done@
        } else {
            let last = self.done@.last();
            self.done@.update(
                self.done@.len() - 1,
                Built { model: PageModel { right: Some(ordinal), ..last.model }, ..last },
            )
        };
        let refs = match kind {
            NodeKind::Leaf => leaf_refs(
                &self.parts,
                page_len - self.parts.payload.len(),
                ordinal,
                Ghost(m),
            ),
            NodeKind::Internal => Vec::new(),
        };
        self.done = Ghost(linked.push(b));
        self.prev = Some((ordinal, offset));
        self.parts = PageParts::new();
        self.first_key = None;
        proof {
            sink1.lemma_wf();
            lemma_written_level(
                &was,
                self,
                style,
                pages0,
                pages1,
                sink.pages(),
                ordinal,
                m,
            );
            if kind == NodeKind::Leaf {
                assert(built_ok(style, sink.pages(), self.fed@, self.done@, self.done@.len() - 1));
                lemma_refs(&was, style, pages0, sink.pages(), ordinal, m, refs@);
                assert forall|i: int| 0 <= i < refs@.len() implies located(
                    self.done@,
                    self.fed@,
                    at + i,
                    #[trigger] refs@[i],
                ) by {
                    assert(was.waiting_ok(style, pages0, i));
                    assert(value_at(self.done@[self.done@.len() - 1], self.fed@, at + i, refs@[i]));
                }
            }
            assert forall|q: int, r: PageRef| located(
                was.done@,
                was.fed@,
                q,
                r,
            ) implies #[trigger] located(self.done@, self.fed@, q, r) by {
                let j = choose|j: int|
                    0 <= j < was.done@.len() && #[trigger] value_at(was.done@[j], was.fed@, q, r);
                assert(self.done@[j].model.offset(q - was.done@[j].node.first)
                    == was.done@[j].model.offset(q - was.done@[j].node.first));
                assert(value_at(self.done@[j], self.fed@, q, r));
            }
        }
        Ok((ordinal, refs))
    }
}

/// A page linked to the one on its right is a page.
proof fn lemma_linked(m: PageModel, right: PageOrdinal)
    requires
        m.wf(),
        right.get() < 0x8000_0000,
    ensures
        page_sound(
            target::spliced(
                m.image(),
                RIGHT_SIBLING_OFFSET as int,
                bytes::le8(bytes::as_signed(right.get() as int)),
            ),
        ),
{
    let linked = PageModel { right: Some(right), ..m };
    m.lemma_decodes();
    m.lemma_patch_right(Some(right));
    assert(linked.wf()) by {
        assert forall|i: int| 0 <= i < linked.count() implies #[trigger] linked.entry_wf(i) by {
            assert(m.entry_wf(i));
        }
    }
    linked.lemma_decodes();
}

/// The references of a leaf page's entries designate their values.
proof fn lemma_refs(
    was: &Level,
    style: Style,
    pages0: Seq<Seq<u8>>,
    pages2: Seq<Seq<u8>>,
    ordinal: PageOrdinal,
    m: PageModel,
    refs: Seq<PageRef>,
)
    requires
        style.kind == NodeKind::Leaf,
        forall|i: int| 0 <= i < was.pending() ==> #[trigger] was.waiting_ok(style, pages0, i),
        m.wf(),
        m.entries == was.parts.entries@,
        ordinal.get() < pages2.len(),
        pages2.len() <= 0x7FFF_FFFF,
        pages2[ordinal.get() as int] == m.image(),
        pages_kept(pages0, pages2, m.left),
        refs.len() == m.count(),
        forall|i: int|
            0 <= i < refs.len() ==> (#[trigger] refs[i]) == (match was.parts.overflow@[i] {
                Some(r) => r,
                None => PageRef {
                    page: ordinal,
                    start: PageLocalOffset::spec_new(
                        (m.offset(i) + m.entries[i].key.len()) as u32,
                    ),
                    length: m.entries[i].tail.len() as u32,
                },
            }),
    ensures
        forall|i: int|
            0 <= i < refs.len() ==> refers_to(
                pages2,
                #[trigger] refs[i],
                was.fed@[written(was.done@) + i].value,
            ),
{
    assert forall|i: int| 0 <= i < refs.len() implies refers_to(
        pages2,
        #[trigger] refs[i],
        was.fed@[written(was.done@) + i].value,
    ) by {
        assert(was.waiting_ok(style, pages0, i));
        let v = was.fed@[written(was.done@) + i].value;
        if let Some(r) = was.parts.overflow@[i] {
            lemma_blob(v);
            let q = r.page.get() as int;
            assert(pages2[q] == pages0[q]);
            assert(blob_image(v).subrange(28, 28int + v.len()) =~= v);
        } else {
            m.lemma_decodes();
            m.lemma_offsets(i);
            m.lemma_areas();
            let e = m.entries[i];
            let from = m.offset(i);
            let whole = m.image().subrange(from, m.offset(i + 1));
            let k = e.key.len() as int;
            assert(m.image().subrange(from + k, from + k + v.len()) =~= whole.subrange(
                k,
                k + v.len(),
            ));
            assert(whole.subrange(k, k + v.len()) =~= v);
        }
    }
}

/// Where the values of a leaf page's entries are.
fn leaf_refs(
    parts: &PageParts,
    payload_base: usize,
    ordinal: PageOrdinal,
    Ghost(m): Ghost<PageModel>,
) -> (refs: Vec<PageRef>)
    requires
        parts.wf(),
        m.entries == parts.entries@,
        m.wf(),
        payload_base == m.payload_at(),
    ensures
        refs@.len() == m.count(),
        forall|i: int|
            0 <= i < refs@.len() ==> (#[trigger] refs@[i]) == (match parts.overflow@[i] {
                Some(r) => r,
                None => PageRef {
                    page: ordinal,
                    start: PageLocalOffset::spec_new(
                        (m.offset(i) + m.entries[i].key.len()) as u32,
                    ),
                    length: m.entries[i].tail.len() as u32,
                },
            }),
{
    let n = parts.sizes.len();
    let mut refs: Vec<PageRef> = Vec::new();
    let mut offset: usize = payload_base;
    let mut i: usize = 0;
    while i < n
        invariant
            parts.wf(),
            m.entries == parts.entries@,
            m.wf(),
            n == m.count(),
            i <= n,
            offset == m.offset(i as int),
            offset <= m.page_len(),
            refs@.len() == i,
            forall|j: int|
                0 <= j < i ==> (#[trigger] refs@[j]) == (match parts.overflow@[j] {
                    Some(r) => r,
                    None => PageRef {
                        page: ordinal,
                        start: PageLocalOffset::spec_new(
                            (m.offset(j) + m.entries[j].key.len()) as u32,
                        ),
                        length: m.entries[j].tail.len() as u32,
                    },
                }),
        decreases n - i,
    {
        proof {
            m.lemma_offsets(i as int);
            assert(parts.sizes@[i as int].0 == m.entries[i as int].key.len());
        }
        let (key_len, payload_len) = parts.sizes[i];
        let reference = match parts.overflow[i] {
            Some(r) => r,
            None => PageRef {
                page: ordinal,
                start: PageLocalOffset::new((offset + key_len) as u32),
                length: payload_len as u32,
            },
        };
        refs.push(reference);
        offset = offset + key_len + payload_len;
        i += 1;
    }
    refs
}

/// The level after its page has been written and linked.
proof fn lemma_written_level(
    was: &Level,
    now: &Level,
    style: Style,
    pages0: Seq<Seq<u8>>,
    pages1: Seq<Seq<u8>>,
    pages2: Seq<Seq<u8>>,
    ordinal: PageOrdinal,
    m: PageModel,
)
    requires
        was.parts.wf(),
        was.fed@.len() == written(was.done@) + was.pending(),
        was.pending() > 0,
        forall|i: int| 0 <= i < was.pending() ==> #[trigger] was.waiting_ok(style, pages0, i),
        forall|j: int|
            0 <= j < was.done@.len() ==> #[trigger] built_ok(style, pages0, was.fed@, was.done@, j),
        was.in_order(),
        (was.prev is None) == (was.done@.len() == 0),
        was.prev matches Some(p) ==> was.done@.last().node.ordinal == p.0,
        ordinal.get() == pages0.len(),
        pages0.len() < 0x7FFF_FFFF,
        m.wf(),
        m.kind == style.kind,
        m.layout == style.layout,
        m.entries == was.parts.entries@,
        m.right is None,
        m.left == (match was.prev {
            Some((o, _)) => Some(o),
            None => None,
        }),
        page::slots_ok(style.layout, m.slots, was.parts.digests@),
        pages1 == pages0.push(m.image()),
        was.prev is None ==> pages2 == pages1,
        was.prev matches Some(p) ==> pages2 == pages1.update(
            p.0.get() as int,
            target::spliced(
                pages1[p.0.get() as int],
                RIGHT_SIBLING_OFFSET as int,
                bytes::le8(bytes::as_signed(ordinal.get() as int)),
            ),
        ),
        now.parts.wf(),
        now.pending() == 0,
        now.fed@ == was.fed@,
        now.done@.len() == was.done@.len() + 1,
        now.done@.last() == (Built {
            node: Node { ordinal, first: written(was.done@), count: was.pending() as int },
            key: was.fed@[written(was.done@)].key,
            model: m,
        }),
        forall|j: int|
            0 <= j < was.done@.len() - 1 ==> #[trigger] now.done@[j] == was.done@[j],
        was.done@.len() > 0 ==> now.done@[was.done@.len() - 1] == (Built {
            model: PageModel { right: Some(ordinal), ..was.done@.last().model },
            ..was.done@.last()
        }),
    ensures
        forall|j: int|
            0 <= j < now.done@.len() ==> #[trigger] built_ok(style, pages2, now.fed@, now.done@, j),
        now.in_order(),
        pages_kept(pages0, pages2, m.left),
{
    let old_len = was.done@.len() as int;
    let at = written(was.done@);
    if old_len > 0 {
        let last = was.done@.last();
        let o = last.node.ordinal;
        assert(built_ok(style, pages0, was.fed@, was.done@, old_len - 1));
        last.model.lemma_decodes();
        last.model.lemma_patch_right(Some(ordinal));
        let x = bytes::le8(bytes::as_signed(ordinal.get() as int));
        assert(pages2[o.get() as int] == target::spliced(
            pages0[o.get() as int],
            RIGHT_SIBLING_OFFSET as int,
            x,
        ));
        let linked = now.done@[old_len - 1].model;
        assert(pages2[o.get() as int] == linked.image());
        assert(linked.wf()) by {
            assert forall|i: int| 0 <= i < linked.count() implies #[trigger] linked.entry_wf(i) by {
                assert(last.model.entry_wf(i));
            }
        }
        linked.lemma_decodes();
        assert(pages_kept(pages0, pages2, Some(o)));
    } else {
        assert(pages_kept(pages0, pages2, None));
    }
    let patched = m.left;
    // Pages before the last one.
    assert forall|j: int| 0 <= j < old_len - 1 implies #[trigger] built_ok(
        style,
        pages2,
        now.fed@,
        now.done@,
        j,
    ) by {
        assert(built_ok(style, pages0, was.fed@, was.done@, j));
        assert(built_ok(style, pages0, was.fed@, was.done@, old_len - 1));
        assert(was.done@[j].node.ordinal.get() < was.done@[old_len - 1].node.ordinal.get());
        lemma_built_kept(style, pages0, pages2, was.fed@, was.done@, j, patched);
        assert(now.done@[j] == was.done@[j]);
        if j + 1 < old_len - 1 {
            assert(now.done@[j + 1] == was.done@[j + 1]);
        }
        if j > 0 {
            assert(now.done@[j - 1] == was.done@[j - 1]);
        }
    }
    // The page that was linked.
    if old_len > 0 {
        let j = old_len - 1;
        let last = was.done@[j];
        let n = last.node;
        assert(built_ok(style, pages0, was.fed@, was.done@, j));
        let linked = now.done@[j].model;
        assert(linked.wf()) by {
            assert forall|i: int| 0 <= i < linked.count() implies #[trigger] linked.entry_wf(i) by {
                assert(last.model.entry_wf(i));
            }
        }
        if j > 0 {
            assert(now.done@[j - 1] == was.done@[j - 1]);
        }
        assert forall|i: int| 0 <= i < n.count implies #[trigger] thing_stored(
            style,
            pages2,
            linked.entries[i],
            now.fed@[n.first + i],
        ) by {
            assert(thing_stored(style, pages0, last.model.entries[i], was.fed@[n.first + i]));
            if style.kind == NodeKind::Leaf {
                lemma_value_kept(
                    pages0,
                    pages2,
                    patched,
                    last.model.entries[i],
                    was.fed@[n.first + i].value,
                );
            }
        }
        assert(built_ok(style, pages2, now.fed@, now.done@, j));
    }
    // The page that was written.
    let b = now.done@[old_len];
    assert forall|i: int| 0 <= i < b.node.count implies #[trigger] thing_stored(
        style,
        pages2,
        m.entries[i],
        now.fed@[at + i],
    ) by {
        assert(was.waiting_ok(style, pages0, i));
        if style.kind == NodeKind::Leaf {
            lemma_value_kept(pages0, pages2, patched, m.entries[i], was.fed@[at + i].value);
        }
    }
    assert(thing_digests(style, now.fed@.subrange(at, at + b.node.count))
        =~= was.parts.digests@) by {
        assert forall|i: int| 0 <= i < b.node.count implies was.parts.digests@[i]
            == style.encoding.inner.digest_of(was.fed@[at + i].key) by {
            assert(was.waiting_ok(style, pages0, i));
        }
    }
    if old_len > 0 {
        assert(built_ok(style, pages0, was.fed@, was.done@, old_len - 1));
        assert(pages2[ordinal.get() as int] == m.image());
    }
    assert(built_ok(style, pages2, now.fed@, now.done@, old_len));
    // Ordinals keep ascending.
    assert forall|i: int, j: int| 0 <= i < j < now.done@.len() implies (
    #[trigger] now.done@[i]).node.ordinal.get() < (#[trigger] now.done@[j]).node.ordinal.get() by {
        assert(built_ok(style, pages0, was.fed@, was.done@, i));
        assert(now.done@[i].node == was.done@[i].node);
        if j < old_len {
            assert(now.done@[j].node == was.done@[j].node);
            assert(was.done@[i].node.ordinal.get() < was.done@[j].node.ordinal.get());
        }
    }
}

} // verus!

//! Bottom-up B+Tree writing.
//!
//! Entries arrive in key order and are packed into a leaf until the next one does not
//! fit; the leaf is then written, its right-sibling pointer is patched into the page
//! before it, and its first key is promoted to the parent level as a separator. The
//! same rule applies to every level, so a tree of any height is written in one forward
//! pass with one page buffer per level.

use vstd::arithmetic::power2::{lemma2_to64, lemma2_to64_rest, lemma_pow2_unfold, pow2};
use vstd::prelude::*;

use super::level::{self, Built, Level, Style, Thing};
use super::page::{self, encode_page, EntryBytes, PageParts};
use super::shape;
use super::sink::{self, PageSink};
use super::scratch::Scratch;
use super::target::BuildTarget;
use crate::encoding::{KeyEncoding, SharedEncoding};
use crate::error::{Error, ErrorKind, Words};
use crate::format::bytes::{self, put_i64, put_le4, put_le8, put_slice};
use crate::format::node::{self, NodeKind, NodeLayout};
use crate::format::pageref::PageRef;
use crate::format::{
    PageLocalOffset, PageOrdinal, MAX_COMPACT_PAGE_SIZE, OVERFLOW_SENTINEL, PAGE_PREFIX_LEN,
};
use crate::model::{self, MAX_LEVELS, Node, Row};

verus! {

broadcast use crate::format::group_format;

/// The smallest page the builder accepts.
pub const MIN_PAGE_SIZE: usize = 60;

/// The page layout a build uses, given its settings and key encoding.
pub open spec fn layout_for(
    page_size: int,
    eytzinger: bool,
    encoding: SharedEncoding,
    allow_omitted_keys: bool,
) -> NodeLayout {
    NodeLayout {
        eytzinger,
        compact_meta: page_size <= MAX_COMPACT_PAGE_SIZE,
        omitted_keys: allow_omitted_keys && page_size <= MAX_COMPACT_PAGE_SIZE && !eytzinger
            && encoding.inner.exact(),
    }
}

/// The page layout a build uses, given its settings and key encoding.
///
/// `allow_omitted_keys` is off for the composite keys of a non-unique index, where the
/// digest covers only the source key and dropping the key bytes would make rows with the
/// same index key indistinguishable on the page.
pub fn choose_layout(
    page_size: usize,
    eytzinger: bool,
    encoding: &SharedEncoding,
    allow_omitted_keys: bool,
) -> (r: NodeLayout)
    ensures
        r == layout_for(page_size as int, eytzinger, *encoding, allow_omitted_keys),
        r.valid(),
{
    let compact_meta = page_size <= MAX_COMPACT_PAGE_SIZE;
    NodeLayout {
        eytzinger,
        compact_meta,
        // Exact digests are a bijective image of the keys, so the key bytes are
        // redundant. Never with Eytzinger: enumeration needs sorted-order digests.
        omitted_keys: allow_omitted_keys && compact_meta && !eytzinger
            && encoding.inner.is_digest_exact(),
    }
}

/// Bytes of a key that a page stores.
pub open spec fn stored_key_len(layout: NodeLayout, key_len: int) -> int {
    if layout.omitted_keys {
        0
    } else {
        key_len
    }
}

/// Bytes of a leaf page with one entry that refers to a blob page.
pub open spec fn leaf_minimum(layout: NodeLayout, key_len: int) -> int {
    PAGE_PREFIX_LEN + layout.leaf_meta(1) + layout.digest_area(1) + stored_key_len(layout, key_len)
        + 8
}

/// Bytes of an internal page with two separators.
pub open spec fn two_separators(layout: NodeLayout, key_len: int) -> int {
    PAGE_PREFIX_LEN + layout.internal_meta(2) + layout.digest_area(2) + 2 * (stored_key_len(
        layout,
        key_len,
    ) + 8)
}

/// Whether a tree with keys this long can be built.
///
/// The entry has to fit on an empty leaf, even as an overflow reference, or there is
/// nowhere to put it. And an internal page has to hold two separators of this size: a
/// level whose pages fit one separator each promotes as many entries as it received, so
/// the height would grow without the entry count ever falling.
pub open spec fn key_fits(page_size: int, layout: NodeLayout, key_len: int) -> bool {
    leaf_minimum(layout, key_len) <= page_size && two_separators(layout, key_len) <= page_size
}

/// Rejects a key that would make the tree impossible to build.
///
/// The second check uses the same key twice, so it is conservative: a page that could
/// hold this key next to a shorter one is still refused. It only bites on page sizes
/// close to the minimum.
pub fn check_key_fits(page_size: usize, layout: NodeLayout, key_len: usize) -> (r: Result<
    (),
    Error,
>)
    requires
        page_size < usize::MAX,
    ensures
        match r {
            Ok(_) => key_fits(page_size as int, layout, key_len as int),
            Err(e) => !key_fits(page_size as int, layout, key_len as int) && e.kind()
                == ErrorKind::ValueTooLarge,
        },
{
    let stored: usize = if layout.omitted_keys {
        0
    } else {
        key_len
    };
    proof {
        reveal_with_fuel(crate::format::eytzinger::complete, 3);
    }
    // The areas of one and two entries are a few dozen bytes.
    let leaf_fixed = PAGE_PREFIX_LEN + 8 + match (
        layout.leaf_meta_size(1),
        layout.digest_area_size(1),
    ) {
        (Some(meta), Some(digests)) => meta + digests,
        _ => 0,
    };
    let leaf = leaf_fixed.saturating_add(stored);
    if leaf > page_size {
        return Err(
            Error::from_text(
                ErrorKind::ValueTooLarge,

                Words::new("a ")
                    .number(key_len as u64)
                    .say(" byte key needs a leaf page of at least ")
                    .number(leaf as u64)
                    .say(" bytes, but the page size is ")
                    .number(page_size as u64)
                    .end(),
            ),
        );
    }
    let internal_fixed = PAGE_PREFIX_LEN + 16 + match (
        layout.internal_meta_size(2),
        layout.digest_area_size(2),
    ) {
        (Some(meta), Some(digests)) => meta + digests,
        _ => 0,
    };
    let two = internal_fixed.saturating_add(stored).saturating_add(stored);
    if two > page_size {
        return Err(
            Error::from_text(
                ErrorKind::ValueTooLarge,

                Words::new("a ")
                    .number(key_len as u64)
                    .say(" byte key needs an internal page of at least ")
                    .number(two as u64)
                    .say(" bytes to hold two separators, but the page size is ")
                    .number(page_size as u64)
                    .say("; a tree whose internal pages hold one separator each cannot be built")
                    .end(),
            ),
        );
    }
    Ok(())
}

/// A row's index keys, with where the row's value landed.
pub struct Placed {
    pub keys: Vec<Vec<u8>>,
    pub reference: PageRef,
    pub row: Ghost<int>,
}

/// The byte strings of a list.
pub open spec fn strings(v: Seq<Vec<u8>>) -> Seq<Seq<u8>> {
    Seq::new(v.len(), |i: int| v[i]@)
}

/// Whether these are the rows up to `end`, each with its index keys and a reference to its
/// value.
pub open spec fn all_placed(
    placed: Seq<Placed>,
    end: int,
    rows: Seq<Row>,
    row_keys: Seq<Seq<Seq<u8>>>,
    pages: Seq<Seq<u8>>,
) -> bool {
    &&& placed.len() <= end <= rows.len()
    &&& forall|i: int|
        0 <= i < placed.len() ==> (#[trigger] placed[i]).row@ == end - placed.len() + i && strings(
            placed[i].keys@,
        ) == row_keys[end - placed.len() + i] && level::refers_to(
            pages,
            placed[i].reference,
            rows[end - placed.len() + i].value,
        )
}

/// Whether placed rows are where their references say, in a tree of this shape.
pub open spec fn refs_in(
    s: model::TreeShape,
    pages: Seq<Seq<u8>>,
    placed: Seq<Placed>,
) -> bool {
    forall|i: int|
        0 <= i < placed.len() ==> model::row_ref(
            s,
            model::page_map(pages),
            (#[trigger] placed[i]).row@,
            placed[i].reference,
        )
}

/// What index keys come to: their bytes, and the bookkeeping of each and of the list.
pub open spec fn extra_total(keys: Seq<Seq<u8>>) -> int
    decreases keys.len(),
{
    if keys.len() == 0 {
        24
    } else {
        extra_total(keys.drop_last()) + keys.last().len() + 24
    }
}

/// Memory a row's index keys hold while they wait for the page the row belongs to.
///
/// The writer cannot hand them on until the page is written, because what it is handed is
/// where the entry landed. Holding them is therefore unavoidable; holding an unbounded
/// number of them is not, so the writer counts what they come to.
pub fn extra_bytes(keys: &Vec<Vec<u8>>) -> (r: usize)
    ensures
        extra_total(strings(keys@)) <= usize::MAX ==> r == extra_total(strings(keys@)),
        extra_total(strings(keys@)) > usize::MAX ==> r == usize::MAX,
{
    let ghost all = strings(keys@);
    let mut total: usize = 24;
    let mut i: usize = 0;
    while i < keys.len()
        invariant
            i <= keys@.len(),
            all == strings(keys@),
            ({
                let sum = extra_total(all.subrange(0, i as int));
                if sum <= usize::MAX {
                    total == sum
                } else {
                    total == usize::MAX
                }
            }),
        decreases keys@.len() - i,
    {
        proof {
            let upto = all.subrange(0, i + 1);
            assert(upto.drop_last() =~= all.subrange(0, i as int));
            assert(upto.last() == keys@[i as int]@);
        }
        total = total.saturating_add(keys[i].len()).saturating_add(24);
        i += 1;
    }
    proof {
        assert(all.subrange(0, i as int) =~= all);
    }
    total
}

/// Writes one B+Tree into a [`PageSink`].
///
/// Each row carries the keys it has in secondary indexes; they are handed back with the
/// row's [`PageRef`] once the leaf is written, which is how index records learn where
/// their record landed.
pub struct TreeWriter {
    page_size: usize,
    layout: NodeLayout,
    encoding: SharedEncoding,
    levels: Vec<Level>,
    /// Index keys of the rows waiting for the leaf page.
    extras: Vec<Vec<Vec<u8>>>,
    /// Rows whose page has been written and that nobody has asked for yet.
    placed: Vec<Placed>,
    /// What the index keys waiting for the leaf page come to, and what they may come to
    /// before the page is written early to be rid of them.
    pending_extra: usize,
    extra_budget: usize,
    rows: Ghost<Seq<Row>>,
    /// The index keys of every row.
    row_keys: Ghost<Seq<Seq<Seq<u8>>>>,
    /// How many pages there were before this tree.
    start: Ghost<int>,
}

/// Whether what a level was fed are the pages of the level below.
pub open spec fn fed_pages(fed: Seq<Thing>, done: Seq<Built>) -> bool {
    &&& fed.len() <= done.len()
    &&& forall|i: int|
        0 <= i < fed.len() ==> (#[trigger] fed[i]).key == done[i].key && fed[i].ordinal
            == done[i].node.ordinal
}

/// Whether a level was fed all the pages of the level below.
pub open spec fn all_fed(levels: Seq<Level>, k: int) -> bool {
    levels[k].fed@.len() == levels[k - 1].done@.len()
}

/// Whether what the leaves were fed are the rows.
pub open spec fn fed_rows(fed: Seq<Thing>, rows: Seq<Row>) -> bool {
    &&& fed.len() == rows.len()
    &&& forall|i: int|
        0 <= i < fed.len() ==> (#[trigger] fed[i]).key == rows[i].key && fed[i].value
            == rows[i].value
}

/// Whether each row sorts above the one before it.
pub open spec fn chained(e: SharedEncoding, rows: Seq<Row>) -> bool {
    &&& forall|i: int|
        0 <= i < rows.len() ==> e.inner.accepts((#[trigger] rows[i]).key) && e.inner.well_formed(
            rows[i].key,
        )
    &&& forall|i: int| 1 <= i < rows.len() ==> #[trigger] in_step(e, rows, i)
}

/// Whether row `i` sorts above the one before it.
pub open spec fn in_step(e: SharedEncoding, rows: Seq<Row>, i: int) -> bool {
    e.inner.sign(rows[i - 1].key, rows[i].key) < 0
}

/// Under a total order, rows that each sort above the one before are sorted.
pub proof fn lemma_chained_sorted(e: SharedEncoding, rows: Seq<Row>)
    requires
        chained(e, rows),
        crate::encoding::lawful(&**e.inner),
    ensures
        model::sorted_rows(e, rows),
{
    assert forall|i: int, j: int| 0 <= i < j < rows.len() implies e.inner.sign(
        (#[trigger] rows[i]).key,
        (#[trigger] rows[j]).key,
    ) < 0 by {
        lemma_chain(e, rows, i, j);
    }
}

proof fn lemma_chain(e: SharedEncoding, rows: Seq<Row>, i: int, j: int)
    requires
        chained(e, rows),
        crate::encoding::lawful(&**e.inner),
        0 <= i < j < rows.len(),
    ensures
        e.inner.sign(rows[i].key, rows[j].key) < 0,
    decreases j - i,
{
    assert(in_step(e, rows, j));
    if i < j - 1 {
        lemma_chain(e, rows, i, j - 1);
        let (a, b, c) = (rows[i].key, rows[j - 1].key, rows[j].key);
        assert(e.inner.accepts(a) && e.inner.accepts(b) && e.inner.accepts(c));
        assert(e.inner.sign(a, b) <= 0 && e.inner.sign(b, c) <= 0);
        assert(e.inner.sign(a, c) <= 0);
    }
}

/// Whether no page belongs to two levels.
pub open spec fn levels_apart(levels: Seq<Level>) -> bool {
    forall|a: int, b: int, o: PageOrdinal|
        0 <= a < b < levels.len() ==> !(#[trigger] levels[a].owns(o) && #[trigger] levels[b].owns(
            o,
        ))
}

impl TreeWriter {
    /// The rows pushed so far.
    pub closed spec fn rows(&self) -> Seq<Row> {
        self.rows@
    }

    /// The index keys of the rows pushed so far.
    pub closed spec fn row_keys(&self) -> Seq<Seq<Seq<u8>>> {
        self.row_keys@
    }

    /// Rows whose page has been written and that nobody has asked for yet.
    pub closed spec fn waiting(&self) -> Seq<Placed> {
        self.placed@
    }

    /// How many rows have been written to a page.
    pub closed spec fn written_rows(&self) -> int {
        level::written(self.levels@[0].done@)
    }

    /// The encoding the keys are in.
    pub closed spec fn key_encoding(&self) -> SharedEncoding {
        self.encoding
    }

    /// The layout of the pages.
    pub closed spec fn page_layout(&self) -> NodeLayout {
        self.layout
    }

    /// How many pages there were before this tree.
    pub closed spec fn first_page(&self) -> int {
        self.start@
    }

    /// The page size.
    pub closed spec fn size_of_page(&self) -> int {
        self.page_size as int
    }

    /// Whether this is the reference to the value of row `q`, on a page that has been written.
    pub closed spec fn located(&self, q: int, r: PageRef) -> bool {
        level::located(self.levels@[0].done@, self.levels@[0].fed@, q, r)
    }

    /// Whether every row that was located still is, at the same place.
    pub open spec fn kept_located(was: &TreeWriter, now: &TreeWriter) -> bool {
        forall|q: int, r: PageRef| was.located(q, r) ==> #[trigger] now.located(q, r)
    }

    /// Whether pages hold the tree of the rows in this shape, and the rows that were located
    /// are where they were.
    pub open spec fn tree_of(
        &self,
        s: model::TreeShape,
        pages: Seq<Seq<u8>>,
        root: PageOrdinal,
    ) -> bool {
        &&& s.rows == self.rows()
        &&& s.levels.len() <= MAX_LEVELS
        &&& model::tree_ok(
            s,
            self.key_encoding(),
            self.page_layout(),
            model::page_map(pages),
            root,
        )
        &&& model::packed(s, self.page_layout(), model::page_map(pages), self.size_of_page())
        &&& forall|q: int, r: PageRef| #[trigger]
            self.located(q, r) ==> model::row_ref(s, model::page_map(pages), q, r)
    }

    /// Whether pages hold the tree of the rows, with the rows that were located and those just
    /// placed where their references say.
    pub open spec fn held(
        &self,
        pages: Seq<Seq<u8>>,
        root: PageOrdinal,
        placed: Seq<Placed>,
    ) -> bool {
        exists|s: model::TreeShape| #[trigger]
            self.tree_of(s, pages, root) && refs_in(s, pages, placed)
    }

    /// Pages that hold the tree of the rows hold the rows.
    pub proof fn lemma_held(&self, pages: Seq<Seq<u8>>, root: PageOrdinal, placed: Seq<Placed>)
        requires
            self.held(pages, root, placed),
        ensures
            model::holds_rows(
                self.rows(),
                self.key_encoding(),
                self.page_layout(),
                model::page_map(pages),
                root,
            ),
            model::holds_packed(
                self.rows(),
                self.key_encoding(),
                self.page_layout(),
                model::page_map(pages),
                root,
                self.size_of_page(),
            ),
    {
    }

    spec fn style(&self, k: int) -> Style {
        Style {
            kind: if k == 0 {
                NodeKind::Leaf
            } else {
                NodeKind::Internal
            },
            layout: self.layout,
            encoding: self.encoding,
        }
    }

    /// Whether the settings are ones a tree can be written with.
    spec fn settings_ok(&self) -> bool {
        &&& MIN_PAGE_SIZE <= self.page_size <= 0x7FFF_FFFF
        &&& self.layout.valid()
        &&& self.layout.compact_meta == (self.page_size <= MAX_COMPACT_PAGE_SIZE)
        &&& self.layout.omitted_keys ==> self.encoding.inner.exact()
    }

    /// Whether level `k` is in order on these pages.
    spec fn level_ok(&self, k: int, pages: Seq<Seq<u8>>, offsets: Seq<u64>) -> bool {
        &&& self.levels@[k].ok(self.style(k), pages, offsets)
        &&& self.levels@[k].in_order()
        &&& k == 0 ==> self.levels@[k].packed(self.layout, self.page_size as int)
    }

    /// Whether the pages of this tree come after those before it.
    spec fn pages_own(&self, pages: int) -> bool {
        &&& 0 <= self.start@ <= pages
        &&& forall|k: int, o: PageOrdinal|
            0 <= k < self.levels@.len() && #[trigger] self.levels@[k].owns(o) ==> self.start@
                <= o.get()
    }

    /// Whether every level is in order, and was fed the pages of the level below; from
    /// level `from` on, all of them.
    spec fn levels_ok<T: BuildTarget, D: Scratch>(&self, sink: &PageSink<T, D>, from: int) -> bool {
        &&& sink.wf()
        &&& self.settings_ok()
        &&& 1 <= self.levels@.len() <= MAX_LEVELS
        &&& forall|k: int|
            0 <= k < self.levels@.len() ==> #[trigger] self.level_ok(
                k,
                sink.pages(),
                sink.offsets(),
            )
        &&& levels_apart(self.levels@)
        &&& self.pages_own(sink.pages().len() as int)
        &&& fed_rows(self.levels@[0].fed@, self.rows@)
        &&& forall|k: int|
            1 <= k < self.levels@.len() ==> #[trigger] fed_pages(
                self.levels@[k].fed@,
                self.levels@[k - 1].done@,
            )
        &&& forall|k: int| from < k < self.levels@.len() ==> #[trigger] all_fed(self.levels@, k)
        &&& self.levels@.last().done@.len() == 0
        &&& chained(self.encoding, self.rows@)
        &&& self.fitting() ==> forall|k: int|
            0 <= k < self.levels@.len() ==> (#[trigger] self.levels@[k]).page_len(self.style(k))
                <= self.page_size
    }

    /// Whether every key pushed is one that a tree can be built with.
    pub closed spec fn fitting(&self) -> bool {
        forall|i: int|
            0 <= i < self.rows@.len() ==> key_fits(
                self.page_size as int,
                self.layout,
                (#[trigger] self.rows@[i]).key.len() as int,
            )
    }

    /// Whether the index keys of the rows waiting for their page are theirs.
    spec fn keys_waiting(&self) -> bool {
        let at = level::written(self.levels@[0].done@);
        &&& self.row_keys@.len() == self.rows@.len()
        &&& self.extras@.len() == self.levels@[0].pending()
        &&& self.placed@.len() <= at
        &&& forall|i: int|
            0 <= i < self.extras@.len() ==> strings((#[trigger] self.extras@[i])@)
                == self.row_keys@[at + i]
    }

    /// Whether the `i`-th placed row is the one it should be, and where it is.
    spec fn placed_at(&self, i: int, pages: Seq<Seq<u8>>) -> bool {
        &&& self.placed_ok(self.placed@[i], pages)
        &&& self.placed@[i].row@ == level::written(self.levels@[0].done@) - self.placed@.len() + i
    }

    /// Whether the placed rows are where they should be.
    spec fn rows_placed(&self, pages: Seq<Seq<u8>>) -> bool {
        forall|i: int| 0 <= i < self.placed@.len() ==> #[trigger] self.placed_at(i, pages)
    }

    /// Whether the index keys of every row are where they should be.
    spec fn extras_ok<T: BuildTarget, D: Scratch>(&self, sink: &PageSink<T, D>) -> bool {
        self.keys_waiting() && self.rows_placed(sink.pages())
    }

    /// Whether a placed row's reference designates its value.
    spec fn placed_ok(&self, p: Placed, pages: Seq<Seq<u8>>) -> bool {
        &&& 0 <= p.row@ < self.rows@.len()
        &&& strings(p.keys@) == self.row_keys@[p.row@]
        &&& level::refers_to(pages, p.reference, self.rows@[p.row@].value)
        &&& self.located(p.row@, p.reference)
    }

    /// Whether the tree written so far is in order.
    pub closed spec fn wf<T: BuildTarget, D: Scratch>(&self, sink: &PageSink<T, D>) -> bool {
        self.levels_ok(sink, 0) && self.extras_ok(sink)
    }

    /// Creates a writer. `eytzinger` and the encoding decide the page layout.
    pub fn new<T: BuildTarget, D: Scratch>(
        sink: &PageSink<T, D>,
        page_size: usize,
        eytzinger: bool,
        encoding: SharedEncoding,
        allow_omitted_keys: bool,
    ) -> (r: Result<TreeWriter, Error>)
        requires
            sink.wf(),
            page_size <= 0x7FFF_FFFF,
        ensures
            match r {
                Ok(w) => {
                    &&& page_size >= MIN_PAGE_SIZE
                    &&& w.wf(sink)
                    &&& w.fair()
                    &&& w.rows() == Seq::<Row>::empty()
                    &&& w.row_keys() == Seq::<Seq<Seq<u8>>>::empty()
                    &&& w.waiting() == Seq::<Placed>::empty()
                    &&& w.written_rows() == 0
                    &&& w.key_encoding() == encoding
                    &&& w.size_of_page() == page_size
                    &&& w.first_page() == sink.pages().len()
                    &&& w.page_layout() == layout_for(
                        page_size as int,
                        eytzinger,
                        encoding,
                        allow_omitted_keys,
                    )
                },
                Err(e) => page_size < MIN_PAGE_SIZE && e.kind() == ErrorKind::InvalidArgument,
            },
    {
        if page_size < MIN_PAGE_SIZE {
            return Err(
                Error::from_text(
                    ErrorKind::InvalidArgument,
                    crate::error::message_with(
                        "page size ",
                        page_size as u64,
                        " is below the 60 byte minimum",
                    ),
                ),
            );
        }
        let layout = choose_layout(page_size, eytzinger, &encoding, allow_omitted_keys);
        let mut levels: Vec<Level> = Vec::new();
        levels.push(Level::new());
        Ok(
            TreeWriter {
                page_size,
                layout,
                encoding,
                levels,
                extras: Vec::new(),
                placed: Vec::new(),
                pending_extra: 0,
                extra_budget: usize::MAX,
                rows: Ghost(Seq::empty()),
                row_keys: Ghost(Seq::empty()),
                start: Ghost(sink.pages().len() as int),
            },
        )
    }

    /// Bounds what the index keys waiting for the current leaf page may come to.
    ///
    /// Reaching it writes the page as it stands, which hands the keys on. A page that
    /// is not full costs a little space; holding every key of every index until the page
    /// fills costs whatever the caller's keys come to.
    pub fn limit_pending_extra<T: BuildTarget, D: Scratch>(&mut self, sink: &PageSink<T, D>, bytes: usize)
        requires
            old(self).wf(sink),
        ensures
            final(self).wf(sink),
            old(self).fair() ==> final(self).fair(),
            final(self).rows() == old(self).rows(),
            final(self).row_keys() == old(self).row_keys(),
            final(self).waiting() == old(self).waiting(),
            final(self).written_rows() == old(self).written_rows(),
            final(self).key_encoding() == old(self).key_encoding(),
            final(self).page_layout() == old(self).page_layout(),
            final(self).size_of_page() == old(self).size_of_page(),
            final(self).first_page() == old(self).first_page(),
    {
        self.extra_budget = bytes;
        proof {
            self.lemma_same_levels(old(self), sink);
            self.lemma_same_placed(old(self), sink.pages());
        }
    }

    /// Placed rows that did not change are still where they should be.
    proof fn lemma_same_placed(&self, other: &TreeWriter, pages: Seq<Seq<u8>>)
        requires
            other.rows_placed(pages),
            self.placed@ == other.placed@,
            self.levels@ == other.levels@,
            self.rows == other.rows,
            self.row_keys == other.row_keys,
        ensures
            self.rows_placed(pages),
    {
        assert forall|i: int| 0 <= i < self.placed@.len() implies #[trigger] self.placed_at(
            i,
            pages,
        ) by {
            assert(other.placed_at(i, pages));
        }
    }
}

/// Whether references keep designating their values.
pub open spec fn refs_kept(a: Seq<Seq<u8>>, b: Seq<Seq<u8>>) -> bool {
    forall|r: PageRef, v: Seq<u8>|
        level::refers_to(a, r, v) ==> #[trigger] level::refers_to(b, r, v)
}

/// What writing pages does to the file.
///
/// Pages before `start` belong to other trees and stay as they were.
pub open spec fn sink_grew<T: BuildTarget, D: Scratch>(a: &PageSink<T, D>, b: &PageSink<T, D>, start: int) -> bool {
    &&& b.wf()
    &&& b.filter() == a.filter()
    &&& b.dependable() == a.dependable()
    &&& b.base() == a.base()
    &&& b.file().len() >= a.file().len()
    &&& b.file().subrange(0, a.base()) == a.file().subrange(0, a.base())
    &&& a.pages().len() <= b.pages().len()
    &&& forall|i: int|
        0 <= i < start && i < a.pages().len() ==> #[trigger] b.pages()[i] == a.pages()[i]
    &&& refs_kept(a.pages(), b.pages())
}

/// A file that did not change only grew.
proof fn lemma_grew_same<T: BuildTarget, D: Scratch>(a: &PageSink<T, D>, start: int)
    requires
        a.wf(),
    ensures
        sink_grew(a, a, start),
{
}

/// A file that grew twice grew.
pub proof fn lemma_grew_twice<T: BuildTarget, D: Scratch>(
    a: &PageSink<T, D>,
    b: &PageSink<T, D>,
    c: &PageSink<T, D>,
    start: int,
)
    requires
        sink_grew(a, b, start),
        sink_grew(b, c, start),
    ensures
        sink_grew(a, c, start),
{
    assert forall|i: int| 0 <= i < start && i < a.pages().len() implies #[trigger] c.pages()[i]
        == a.pages()[i] by {
        assert(b.pages()[i] == a.pages()[i]);
    }
    assert forall|r: PageRef, v: Seq<u8>|
        level::refers_to(a.pages(), r, v) implies #[trigger] level::refers_to(c.pages(), r, v) by {
        assert(level::refers_to(b.pages(), r, v));
    }
}

/// The row a page's first key belongs to fits when all rows do.
proof fn lemma_two_fit(page_size: int, layout: NodeLayout, a: int, b: int)
    requires
        key_fits(page_size, layout, a),
        key_fits(page_size, layout, b),
        0 <= a,
        0 <= b,
    ensures
        PAGE_PREFIX_LEN + layout.internal_meta(1) + layout.digest_area(1) + stored_key_len(
            layout,
            a,
        ) + 8 <= page_size,
        PAGE_PREFIX_LEN + layout.internal_meta(2) + layout.digest_area(2) + stored_key_len(
            layout,
            a,
        ) + 8 + stored_key_len(layout, b) + 8 <= page_size,
{
    reveal_with_fuel(crate::format::eytzinger::complete, 3);
}

/// Every key a level was fed is the key of a row.
proof fn lemma_fed_fit(w: &TreeWriter, k: int, i: int)
    requires
        w.fitting(),
        0 <= k < w.levels@.len(),
        fed_rows(w.levels@[0].fed@, w.rows@),
        forall|x: int|
            1 <= x < w.levels@.len() ==> #[trigger] fed_pages(
                w.levels@[x].fed@,
                w.levels@[x - 1].done@,
            ),
        forall|x: int, j: int|
            0 <= x < w.levels@.len() && 0 <= j < w.levels@[x].done@.len() ==> 0
                <= #[trigger] w.levels@[x].done@[j].node.first < w.levels@[x].fed@.len()
                && w.levels@[x].done@[j].key
                == w.levels@[x].fed@[w.levels@[x].done@[j].node.first].key,
        0 <= i < w.levels@[k].fed@.len(),
    ensures
        key_fits(w.page_size as int, w.layout, w.levels@[k].fed@[i].key.len() as int),
    decreases k,
{
    if k == 0 {
        assert(w.levels@[0].fed@[i].key == w.rows@[i].key);
    } else {
        assert(fed_pages(w.levels@[k].fed@, w.levels@[k - 1].done@));
        assert(w.levels@[k].fed@[i].key == w.levels@[k - 1].done@[i].key);
        let f = w.levels@[k - 1].done@[i].node.first;
        lemma_fed_fit(w, k - 1, f);
    }
}

impl TreeWriter {
    /// What the levels in order say of the pages written.
    proof fn lemma_done_firsts<T: BuildTarget, D: Scratch>(&self, sink: &PageSink<T, D>, from: int)
        requires
            self.levels_ok(sink, from),
        ensures
            forall|x: int, j: int|
                0 <= x < self.levels@.len() && 0 <= j < self.levels@[x].done@.len() ==> 0
                    <= #[trigger] self.levels@[x].done@[j].node.first < self.levels@[x].fed@.len()
                    && self.levels@[x].done@[j].key
                    == self.levels@[x].fed@[self.levels@[x].done@[j].node.first].key
                    && self.levels@[x].done@[j].node.ordinal.get() < sink.pages().len(),
    {
        assert forall|x: int, j: int|
            0 <= x < self.levels@.len() && 0 <= j < self.levels@[x].done@.len() implies 0
            <= #[trigger] self.levels@[x].done@[j].node.first < self.levels@[x].fed@.len()
            && self.levels@[x].done@[j].key
            == self.levels@[x].fed@[self.levels@[x].done@[j].node.first].key
            && self.levels@[x].done@[j].node.ordinal.get() < sink.pages().len() by {
            assert(self.level_ok(x, sink.pages(), sink.offsets()));
            assert(level::built_ok(
                self.style(x),
                sink.pages(),
                self.levels@[x].fed@,
                self.levels@[x].done@,
                j,
            ));
        }
    }

    /// After a level has written a page, the levels are still in order; the page has not
    /// been promoted yet.
    proof fn lemma_level_written<T: BuildTarget, D: Scratch>(
        was: &TreeWriter,
        now: &TreeWriter,
        a: &PageSink<T, D>,
        b: &PageSink<T, D>,
        k: int,
        patched: Option<PageOrdinal>,
    )
        requires
            was.levels_ok(a, k),
            0 <= k < was.levels@.len(),
            now.page_size == was.page_size,
            now.layout == was.layout,
            now.encoding == was.encoding,
            now.rows == was.rows,
            now.start == was.start,
            now.levels@.len() == was.levels@.len(),
            forall|i: int| 0 <= i < was.levels@.len() && i != k ==> now.levels@[i] == was.levels@[i],
            level::page_written(a, b, patched),
            patched matches Some(o) ==> was.levels@[k].owns(o),
            b.pages().len() == a.pages().len() + 1,
            now.levels@[k].ok(now.style(k), b.pages(), b.offsets()),
            now.levels@[k].in_order(),
            now.levels@[k].pending() == 0,
            now.levels@[k].fed@ == was.levels@[k].fed@,
            now.levels@[k].done@.len() == was.levels@[k].done@.len() + 1,
            now.levels@[k].done@.last().node.ordinal.get() == a.pages().len(),
            now.levels@[k].done@.last().node.first == level::written(was.levels@[k].done@),
            now.levels@[k].done@.last().node.count == was.levels@[k].pending(),
            now.levels@[k].done@.last().model.entries == was.levels@[k].parts.entries@,
            forall|j: int|
                0 <= j < was.levels@[k].done@.len() ==> (#[trigger] now.levels@[k].done@[j]).node
                    == was.levels@[k].done@[j].node && now.levels@[k].done@[j].key
                    == was.levels@[k].done@[j].key && now.levels@[k].done@[j].model.entries
                    == was.levels@[k].done@[j].model.entries,
        ensures
            forall|i: int|
                0 <= i < now.levels@.len() ==> #[trigger] now.level_ok(i, b.pages(), b.offsets()),
            levels_apart(now.levels@),
            now.pages_own(b.pages().len() as int),
            patched matches Some(o) ==> was.start@ <= o.get(),
            forall|i: int|
                1 <= i < now.levels@.len() ==> #[trigger] fed_pages(
                    now.levels@[i].fed@,
                    now.levels@[i - 1].done@,
                ),
            now.fitting() ==> forall|i: int|
                0 <= i < now.levels@.len() ==> (#[trigger] now.levels@[i]).page_len(now.style(i))
                    <= now.page_size,
    {
        a.lemma_wf();
        b.lemma_wf();
        was.lemma_done_firsts(a, k);
        assert forall|i: int| 0 <= i < now.levels@.len() implies #[trigger] now.level_ok(
            i,
            b.pages(),
            b.offsets(),
        ) by {
            if i != k {
                assert(was.level_ok(i, a.pages(), a.offsets()));
                if let Some(o) = patched {
                    assert(!was.levels@[i].owns(o)) by {
                        if i < k {
                            assert(!(was.levels@[i].owns(o) && was.levels@[k].owns(o)));
                        } else {
                            assert(!(was.levels@[k].owns(o) && was.levels@[i].owns(o)));
                        }
                    }
                }
                level::lemma_level_kept(
                    &was.levels@[i],
                    was.style(i),
                    a.pages(),
                    b.pages(),
                    a.offsets(),
                    b.offsets(),
                    patched,
                );
            } else if k == 0 {
                assert(was.level_ok(0, a.pages(), a.offsets()));
                level::lemma_packed_written(
                    &was.levels@[0],
                    &now.levels@[0],
                    was.layout,
                    was.page_size as int,
                );
            }
        }
        assert forall|x: int, y: int, o: PageOrdinal| 0 <= x < y < now.levels@.len() implies !(
        #[trigger] now.levels@[x].owns(o) && #[trigger] now.levels@[y].owns(o)) by {
            if now.levels@[x].owns(o) && now.levels@[y].owns(o) {
                assert(was.levels@[x].owns(o) || x == k && o.get() == a.pages().len()) by {
                    let j = choose|j: int|
                        0 <= j < now.levels@[x].done@.len()
                            && #[trigger] now.levels@[x].done@[j].node.ordinal == o;
                    if j < was.levels@[x].done@.len() {
                        assert(was.levels@[x].done@[j].node.ordinal == o);
                    }
                }
                assert(was.levels@[y].owns(o) || y == k && o.get() == a.pages().len()) by {
                    let j = choose|j: int|
                        0 <= j < now.levels@[y].done@.len()
                            && #[trigger] now.levels@[y].done@[j].node.ordinal == o;
                    if j < was.levels@[y].done@.len() {
                        assert(was.levels@[y].done@[j].node.ordinal == o);
                    }
                }
                if was.levels@[x].owns(o) && was.levels@[y].owns(o) {
                    assert(false);
                }
                // One of them owns the new page, which the other cannot.
                let z = if x == k && o.get() == a.pages().len() {
                    y
                } else {
                    x
                };
                let j = choose|j: int|
                    0 <= j < was.levels@[z].done@.len()
                        && #[trigger] was.levels@[z].done@[j].node.ordinal == o;
                assert(was.levels@[z].done@[j].node.first >= 0);
                assert(was.levels@[z].done@[j].node.ordinal.get() < a.pages().len());
            }
        }
        assert forall|x: int, o: PageOrdinal|
            0 <= x < now.levels@.len() && #[trigger] now.levels@[x].owns(o) implies now.start@
            <= o.get() by {
            let j = choose|j: int|
                0 <= j < now.levels@[x].done@.len()
                    && #[trigger] now.levels@[x].done@[j].node.ordinal == o;
            if j < was.levels@[x].done@.len() {
                assert(was.levels@[x].done@[j].node.ordinal == o);
                assert(was.levels@[x].owns(o));
            }
        }
        assert forall|i: int| 1 <= i < now.levels@.len() implies #[trigger] fed_pages(
            now.levels@[i].fed@,
            now.levels@[i - 1].done@,
        ) by {
            assert(fed_pages(was.levels@[i].fed@, was.levels@[i - 1].done@));
            if i - 1 == k {
                assert forall|j: int| 0 <= j < now.levels@[i].fed@.len() implies (
                #[trigger] now.levels@[i].fed@[j]).key == now.levels@[i - 1].done@[j].key
                    && now.levels@[i].fed@[j].ordinal
                    == now.levels@[i - 1].done@[j].node.ordinal by {
                    assert(was.levels@[i].fed@[j].key == was.levels@[i - 1].done@[j].key);
                    assert(now.levels@[k].done@[j].node == was.levels@[k].done@[j].node);
                }
            }
        }
        if now.fitting() {
            assert(was.fitting());
            assert forall|i: int| 0 <= i < now.levels@.len() implies (
            #[trigger] now.levels@[i]).page_len(now.style(i)) <= now.page_size by {
                assert(was.levels@[i].page_len(was.style(i)) <= was.page_size);
                if i == k {
                    assert(now.levels@[k].parts.payload@.len() == 0);
                    assert(now.layout.digest_area(0) == 0) by {
                        reveal_with_fuel(crate::format::eytzinger::complete, 2);
                    }
                }
            }
        }
    }
}

/// How many pages pushing a row writes at the most: one on each level for the page that is
/// full, one for its value, and one on each level for the page that is written early.
pub const PUSH_PAGES: u64 = 129;

/// How many pages finishing a tree writes at the most.
pub const FINISH_PAGES: u64 = 4097;

/// How many rows a tree of more levels than a tree may have holds at the least.
pub const TOWER_ROWS: u64 = 0x4000_0000_0000_0000;

/// Whether the pages of an internal level hold two separators or more each; the last one may
/// be left out.
pub open spec fn tapers(done: Seq<Built>, last: bool) -> bool {
    forall|j: int|
        0 <= j < done.len() - (if last {
            0int
        } else {
            1
        }) ==> (#[trigger] done[j]).node.count >= 2
}

impl TreeWriter {
    /// How a failure to write up to `n` pages is explained.
    spec fn write_failure<T: BuildTarget, D: Scratch>(
        &self,
        sink: &PageSink<T, D>,
        e: Error,
        n: int,
        steep: bool,
    ) -> bool {
        ||| e.kind() == ErrorKind::Io && !sink.dependable()
        ||| e.kind() == ErrorKind::ValueTooLarge && sink.crowded(n)
        ||| e.is_corrupt() && steep
    }

    /// Whether the internal levels narrow: their pages hold two separators or more each, but
    /// for the last page of a level below `from`.
    spec fn narrow(&self, from: int) -> bool {
        forall|k: int|
            1 <= k < self.levels@.len() ==> tapers((#[trigger] self.levels@[k]).done@, k >= from)
    }

    /// Whether every key pushed is one that a tree can be built with, and the levels narrow.
    pub closed spec fn fair(&self) -> bool {
        self.fitting() && self.narrow(1)
    }

    /// Whether a tree that has these rows may have more levels than a tree may have.
    pub open spec fn steep(&self) -> bool {
        !self.fair() || self.rows().len() >= TOWER_ROWS
    }

    /// Whether writing a page of a level may make the tree too high.
    spec fn steep_at(&self, k: int) -> bool {
        ||| !self.fitting()
        ||| !self.narrow(k)
        ||| self.rows().len() >= TOWER_ROWS
        ||| k > 0 && k + 1 == self.levels@.len() && self.levels@[k].pending() < 2
    }

    /// The state that rotating a level leaves the writer in.
    spec fn rotated<T: BuildTarget, D: Scratch>(
        was: &TreeWriter,
        now: &TreeWriter,
        a: &PageSink<T, D>,
        b: &PageSink<T, D>,
        k: int,
    ) -> bool {
        &&& now.levels_ok(b, k)
        &&& sink_grew(a, b, was.start@)
        &&& now.same_but_levels(was)
        &&& now.levels@.len() >= was.levels@.len()
        &&& now.levels@.len() > k + 1
        &&& forall|i: int| 0 <= i < k ==> #[trigger] now.levels@[i] == was.levels@[i]
        &&& now.levels@[k].pending() == 0
        &&& now.levels@[k].fed@ == was.levels@[k].fed@
        &&& now.levels@[k].done@.len() == was.levels@[k].done@.len() + 1
        &&& TreeWriter::kept_located(was, now)
    }

    /// The levels after one of them has written a page that has not been promoted yet.
    spec fn written_ok<T: BuildTarget, D: Scratch>(&self, sink: &PageSink<T, D>, k: int) -> bool {
        &&& sink.wf()
        &&& self.settings_ok()
        &&& 1 <= self.levels@.len() <= MAX_LEVELS
        &&& 0 <= k < self.levels@.len()
        &&& forall|i: int|
            0 <= i < self.levels@.len() ==> #[trigger] self.level_ok(
                i,
                sink.pages(),
                sink.offsets(),
            )
        &&& levels_apart(self.levels@)
        &&& self.pages_own(sink.pages().len() as int)
        &&& fed_rows(self.levels@[0].fed@, self.rows@)
        &&& chained(self.encoding, self.rows@)
        &&& forall|i: int|
            1 <= i < self.levels@.len() ==> #[trigger] fed_pages(
                self.levels@[i].fed@,
                self.levels@[i - 1].done@,
            )
        &&& forall|i: int| k + 1 < i < self.levels@.len() ==> #[trigger] all_fed(self.levels@, i)
        &&& k + 1 < self.levels@.len() ==> self.levels@.last().done@.len() == 0 && self.levels@[k
            + 1].fed@.len() + 1 == self.levels@[k].done@.len()
        &&& k + 1 == self.levels@.len() ==> self.levels@[k].done@.len() == 1
        &&& self.fitting() ==> forall|i: int|
            0 <= i < self.levels@.len() ==> (#[trigger] self.levels@[i]).page_len(self.style(i))
                <= self.page_size
    }

    /// Whether nothing but the levels differs.
    spec fn same_but_levels(&self, other: &TreeWriter) -> bool {
        &&& self.page_size == other.page_size
        &&& self.layout == other.layout
        &&& self.encoding == other.encoding
        &&& self.rows == other.rows
        &&& self.start == other.start
        &&& self.row_keys == other.row_keys
        &&& self.extras == other.extras
        &&& self.placed == other.placed
        &&& self.pending_extra == other.pending_extra
        &&& self.extra_budget == other.extra_budget
    }

    /// Writes the level's current page. Returns its ordinal, its first key, and where the
    /// values of a leaf page landed.
    fn write_level<T: BuildTarget, D: Scratch>(&mut self, sink: &mut PageSink<T, D>, level: usize) -> (r: Result<
        (PageOrdinal, Vec<u8>, Vec<PageRef>),
        Error,
    >)
        requires
            old(self).levels_ok(old(sink), level as int),
            level < old(self).levels@.len(),
            old(self).levels@[level as int].pending() > 0,
        ensures
            final(sink).dependable() == old(sink).dependable(),
            final(sink).filter() == old(sink).filter(),
            match r {
                Ok((ordinal, separator, refs)) => {
                    let k = level as int;
                    &&& final(self).written_ok(final(sink), k)
                    &&& final(self).same_but_levels(old(self))
                    &&& sink_grew(old(sink), final(sink), old(self).start@)
                    &&& final(self).levels@.len() == old(self).levels@.len()
                    &&& forall|i: int|
                        0 <= i < final(self).levels@.len() && i != k
                            ==> #[trigger] final(self).levels@[i] == old(self).levels@[i]
                    &&& final(self).levels@[k].pending() == 0
                    &&& final(self).levels@[k].fed@ == old(self).levels@[k].fed@
                    &&& final(self).levels@[k].done@.len() == old(self).levels@[k].done@.len() + 1
                    &&& sink::within(old(sink), final(sink), 1)
                    &&& final(self).levels@[k].done@.last().node.count
                        == old(self).levels@[k].pending()
                    &&& forall|j: int|
                        0 <= j < old(self).levels@[k].done@.len() ==> (
                        #[trigger] final(self).levels@[k].done@[j]).node
                            == old(self).levels@[k].done@[j].node
                    &&& final(self).levels@[k].done@.last().node.ordinal == ordinal
                    &&& final(self).levels@[k].done@.last().key == separator@
                    &&& final(self).levels@[k].prev is Some
                    &&& ordinal.get() < 0x8000_0000
                    &&& separator@.len() <= 0xFFFF
                    &&& old(self).encoding.inner.accepts(separator@)
                    &&& level == 0 ==> refs@.len() == old(self).levels@[0].pending() && forall|
                        i: int,
                    |
                        0 <= i < refs@.len() ==> level::refers_to(
                            final(sink).pages(),
                            #[trigger] refs@[i],
                            old(self).rows@[level::written(old(self).levels@[0].done@) + i].value,
                        ) && final(self).located(
                            level::written(old(self).levels@[0].done@) + i,
                            refs@[i],
                        )
                    &&& TreeWriter::kept_located(old(self), final(self))
                },
                Err(e) => old(self).write_failure(old(sink), e, 1, !old(self).fitting()),
            },
    {
        let ghost was = *self;
        let ghost sink0 = *sink;
        let ghost k = level as int;
        let ghost style = self.style(k);
        proof {
            assert(self.level_ok(k, sink.pages(), sink.offsets()));
            sink.lemma_wf();
            if self.fitting() {
                assert(self.levels@[k].page_len(self.style(k)) <= self.page_size);
            }
            assert(was.levels@[k].waiting_ok(style, sink0.pages(), 0));
            level::lemma_written(&was.levels@[k], style, sink0.pages(), sink0.offsets());
        }
        let separator = match &self.levels[level].first_key {
            Some(key) => vstd::slice::slice_to_vec(key.as_slice()),
            None => {
                proof {
                    assert(false);
                }
                return Err(Error::corrupt("a promoted page has no first key"));
            },
        };
        let kind = if level == 0 {
            NodeKind::Leaf
        } else {
            NodeKind::Internal
        };
        let layout = self.layout;
        let page_size = self.page_size;
        let ghost at = level::written(self.levels@[k].done@);
        let ghost patched: Option<PageOrdinal> = match self.levels@[k].prev {
            Some((o, _)) => Some(o),
            None => None,
        };
        let outcome = self.levels[level].write_out(sink, kind, layout, page_size, Ghost(style));
        let (ordinal, refs) = match outcome {
            Ok(done) => done,
            Err(e) => return Err(e),
        };
        proof {
            let sink1 = *sink;
            if let Some(o) = patched {
                let j = was.levels@[k].done@.len() - 1;
                assert(was.levels@[k].done@[j].node.ordinal == o);
                assert(was.levels@[k].owns(o));
            }
            TreeWriter::lemma_level_written(&was, self, &sink0, &sink1, k, patched);
            sink1.lemma_wf();
            assert(refs_kept(sink0.pages(), sink1.pages())) by {
                assert forall|r: PageRef, v: Seq<u8>|
                    level::refers_to(sink0.pages(), r, v) implies #[trigger] level::refers_to(
                    sink1.pages(),
                    r,
                    v,
                ) by {
                    level::lemma_refers_kept(sink0.pages(), sink1.pages(), patched, r, v);
                }
            }
            if level == 0 {
                assert forall|i: int| 0 <= i < refs@.len() implies level::refers_to(
                    sink1.pages(),
                    #[trigger] refs@[i],
                    was.rows@[at + i].value,
                ) by {
                    assert(was.levels@[0].fed@[at + i].value == was.rows@[at + i].value);
                }
            }
            assert forall|i: int| k + 1 < i < self.levels@.len() implies #[trigger] all_fed(
                self.levels@,
                i,
            ) by {
                assert(all_fed(was.levels@, i));
            }
            if k + 1 < self.levels@.len() {
                assert(all_fed(was.levels@, k + 1));
            }
        }
        Ok((ordinal, separator, refs))
    }

    /// Makes sure there is a level above.
    fn ensure_parent<T: BuildTarget, D: Scratch>(&mut self, sink: &PageSink<T, D>, level: usize) -> (r: Result<
        (),
        Error,
    >)
        requires
            old(self).written_ok(sink, level as int),
        ensures
            match r {
                Ok(_) => {
                    let k = level as int;
                    &&& final(self).levels_ok(sink, k + 1)
                    &&& final(self).same_but_levels(old(self))
                    &&& k + 1 < final(self).levels@.len()
                    &&& final(self).levels@.len() >= old(self).levels@.len()
                    &&& forall|i: int|
                        0 <= i <= k ==> #[trigger] final(self).levels@[i] == old(self).levels@[i]
                    &&& forall|from: int|
                        old(self).narrow(from) ==> #[trigger] final(self).narrow(from)
                    &&& final(self).levels@[k + 1].fed@.len() + 1 == final(self).levels@[k].done@.len()
                },
                Err(e) => e.is_corrupt() && old(self).levels@.len() == MAX_LEVELS && level + 1
                    == MAX_LEVELS,
            },
    {
        let ghost was = *self;
        let parent = level + 1;
        if parent >= self.levels.len() {
            if self.levels.len() >= MAX_LEVELS {
                return Err(
                    Error::corrupt(
                        "internal error: the tree reached 64 levels without the entry count falling",
                    ),
                );
            }
            self.levels.push(Level::new());
            proof {
                assert(self.levels@.drop_last() =~= was.levels@);
            }
        }
        proof {
            TreeWriter::lemma_parent_ready(&was, self, sink, level as int);
            assert forall|i: int| 0 <= i <= level implies #[trigger] self.levels@[i]
                == was.levels@[i] by {}
        }
        Ok(())
    }

    /// Adds a page's first key as a separator in the level above.
    fn feed_parent<T: BuildTarget, D: Scratch>(
        &mut self,
        sink: &PageSink<T, D>,
        level: usize,
        ordinal: PageOrdinal,
        separator: &Vec<u8>,
    )
        requires
            level + 1 < old(self).levels@.len(),
            old(self).levels_ok(sink, level + 1),
            old(self).levels@[level as int].done@.len() > 0,
            old(self).levels@[level + 1].fed@.len() + 1 == old(self).levels@[level as int].done@.len(),
            old(self).levels@[level as int].done@.last().node.ordinal == ordinal,
            old(self).levels@[level as int].done@.last().key == separator@,
            ordinal.get() < 0x8000_0000,
            separator@.len() <= 0xFFFF,
            old(self).encoding.inner.accepts(separator@),
            ({
                let l = old(self).levels@[level + 1];
                l.pending() == 0 || PAGE_PREFIX_LEN + old(self).layout.digest_area(l.pending() + 1)
                    + old(self).layout.internal_meta(l.pending() + 1) + l.parts.payload@.len()
                    + stored_key_len(old(self).layout, separator@.len() as int) + 8 <= old(self).page_size
            }),
        ensures
            final(self).levels_ok(sink, level as int),
            final(self).same_but_levels(old(self)),
            final(self).levels@.len() == old(self).levels@.len(),
            forall|i: int|
                0 <= i <= level ==> #[trigger] final(self).levels@[i] == old(self).levels@[i],
            forall|from: int| old(self).narrow(from) ==> #[trigger] final(self).narrow(from),
    {
        let ghost ready = *self;
        let ghost p = level + 1;
        let parent = level + 1;
        let digest = match self.encoding.inner.digest(separator.as_slice()) {
            Ok(digest) => digest,
            Err(_) => 0,
        };
        let mut child: Vec<u8> = Vec::new();
        put_le8(&mut child, ordinal.get());
        let empty: Vec<u8> = Vec::new();
        let ghost t = Thing { key: separator@, value: Seq::empty(), ordinal };
        let ghost pstyle = self.style(p);
        let stored_key = if self.layout.omitted_keys {
            empty.as_slice()
        } else {
            separator.as_slice()
        };
        proof {
            assert(self.level_ok(p, sink.pages(), sink.offsets()));
            assert(child@ =~= bytes::le8(ordinal.get() as int));
            let e = EntryBytes { key: stored_key@, tail: child@, overflow: true };
            assert(e.key =~= (if self.layout.omitted_keys {
                Seq::<u8>::empty()
            } else {
                separator@
            }));
            assert(level::thing_stored(pstyle, sink.pages(), e, t));
        }
        self.levels[parent].feed(
            digest,
            separator.as_slice(),
            stored_key,
            child.as_slice(),
            None,
            Ghost(t),
            Ghost(pstyle),
            Ghost(sink.pages()),
            Ghost(sink.offsets()),
        );
        proof {
            TreeWriter::lemma_promoted(
                &ready,
                self,
                sink,
                level as int,
                stored_key_len(self.layout, separator@.len() as int),
            );
        }
    }

}

/// Where the pages of a level that tapers start.
proof fn lemma_taper_first(
    l: &Level,
    style: Style,
    pages: Seq<Seq<u8>>,
    offsets: Seq<u64>,
    j: int,
    each: int,
)
    requires
        l.ok(style, pages, offsets),
        0 <= j < l.done@.len(),
        each == 1 || each == 2 && tapers(l.done@, false),
    ensures
        l.done@[j].node.first >= each * j,
        l.done@[j].node.count >= 1,
    decreases j,
{
    assert(level::built_ok(style, pages, l.fed@, l.done@, j));
    if j > 0 {
        lemma_taper_first(l, style, pages, offsets, j - 1, each);
        assert(l.done@[j - 1].node.count >= each);
    }
}

impl TreeWriter {
    /// How many pages a level of a tree with too many levels has.
    proof fn lemma_tower_level<T: BuildTarget, D: Scratch>(&self, sink: &PageSink<T, D>, i: nat)
        requires
            self.written_ok(sink, MAX_LEVELS - 1),
            self.levels@.len() == MAX_LEVELS,
            self.narrow(MAX_LEVELS as int),
            self.levels@[MAX_LEVELS - 1].done@.len() > 0,
            self.levels@[MAX_LEVELS - 1].done@[0].node.count >= 2,
            i <= MAX_LEVELS - 2,
        ensures
            self.levels@[MAX_LEVELS - 2 - i].done@.len() >= pow2(i) + 1,
        decreases i,
    {
        let top = MAX_LEVELS - 1;
        let k = top - i;
        assert(self.level_ok(k, sink.pages(), sink.offsets()));
        let l = self.levels@[k];
        let n = l.done@.len() as int;
        assert(fed_pages(l.fed@, self.levels@[k - 1].done@));
        if i == 0 {
            lemma2_to64();
            assert(level::built_ok(self.style(k), sink.pages(), l.fed@, l.done@, 0));
        } else {
            self.lemma_tower_level(sink, (i - 1) as nat);
            lemma_pow2_unfold(i);
            assert(tapers(l.done@, false));
            lemma_taper_first(&l, self.style(k), sink.pages(), sink.offsets(), n - 1, 2);
            assert(level::built_ok(self.style(k), sink.pages(), l.fed@, l.done@, n - 1));
        }
    }

    /// A tree with too many levels has more rows than there can be.
    proof fn lemma_tower<T: BuildTarget, D: Scratch>(&self, sink: &PageSink<T, D>)
        requires
            self.written_ok(sink, MAX_LEVELS - 1),
            self.levels@.len() == MAX_LEVELS,
            self.narrow(MAX_LEVELS as int),
            self.levels@[MAX_LEVELS - 1].done@.len() > 0,
            self.levels@[MAX_LEVELS - 1].done@[0].node.count >= 2,
        ensures
            self.rows@.len() >= TOWER_ROWS,
    {
        self.lemma_tower_level(sink, (MAX_LEVELS - 2) as nat);
        lemma2_to64_rest();
        assert(self.level_ok(0, sink.pages(), sink.offsets()));
        let l = self.levels@[0];
        let n = l.done@.len() as int;
        lemma_taper_first(&l, self.style(0), sink.pages(), sink.offsets(), n - 1, 1);
        assert(level::built_ok(self.style(0), sink.pages(), l.fed@, l.done@, n - 1));
    }

    /// A page of separators has room for two of them.
    proof fn lemma_two_separators<T: BuildTarget, D: Scratch>(
        &self,
        sink: &PageSink<T, D>,
        k: int,
        separator: Seq<u8>,
    )
        requires
            self.levels_ok(sink, k + 1),
            self.fitting(),
            0 <= k,
            k + 1 < self.levels@.len(),
            self.levels@[k].done@.len() > 0,
            self.levels@[k].done@.last().key == separator,
            self.levels@[k + 1].pending() <= 1,
        ensures
            ({
                let l = self.levels@[k + 1];
                PAGE_PREFIX_LEN + self.layout.digest_area(l.pending() + 1)
                    + self.layout.internal_meta(l.pending() + 1) + l.parts.payload@.len()
                    + stored_key_len(self.layout, separator.len() as int) + 8 <= self.page_size
            }),
    {
        let p = k + 1;
        let l = self.levels@[p];
        self.lemma_done_firsts(sink, k + 1);
        let f = self.levels@[k].done@.last().node.first;
        assert(self.levels@[k].done@[self.levels@[k].done@.len() - 1].node.first == f);
        lemma_fed_fit(self, k, f);
        assert(self.level_ok(p, sink.pages(), sink.offsets()));
        let len = separator.len() as int;
        reveal_with_fuel(page::payload, 2);
        if l.pending() == 0 {
            lemma_two_fit(self.page_size as int, self.layout, len, len);
        } else {
            let at = level::written(l.done@);
            level::lemma_written(&l, self.style(p), sink.pages(), sink.offsets());
            assert(l.waiting_ok(self.style(p), sink.pages(), 0));
            lemma_fed_fit(self, p, at);
            let other = l.fed@[at].key.len() as int;
            bytes::lemma_le8_len(l.fed@[at].ordinal.get() as int);
            lemma_two_fit(self.page_size as int, self.layout, other, len);
            assert(l.parts.payload@.len() == stored_key_len(self.layout, other) + 8);
        }
    }
}

impl TreeWriter {
    /// Writes the level's current page and adds its first key as a separator in the
    /// parent level. Returns where the values of a leaf page landed.
    fn rotate<T: BuildTarget, D: Scratch>(&mut self, sink: &mut PageSink<T, D>, level: usize) -> (r: Result<
        Vec<PageRef>,
        Error,
    >)
        requires
            old(self).levels_ok(old(sink), level as int),
            level < old(self).levels@.len(),
            old(self).levels@[level as int].pending() > 0,
        ensures
            final(sink).dependable() == old(sink).dependable(),
            final(sink).filter() == old(sink).filter(),
            match r {
                Ok(refs) => {
                    &&& TreeWriter::rotated(
                        old(self),
                        final(self),
                        old(sink),
                        final(sink),
                        level as int,
                    )
                    &&& level == 0 ==> refs@.len() == old(self).levels@[0].pending() && forall|
                        i: int,
                    |
                        0 <= i < refs@.len() ==> level::refers_to(
                            final(sink).pages(),
                            #[trigger] refs@[i],
                            old(self).rows@[level::written(old(self).levels@[0].done@) + i].value,
                        ) && final(self).located(
                            level::written(old(self).levels@[0].done@) + i,
                            refs@[i],
                        )
                    &&& sink::within(old(sink), final(sink), MAX_LEVELS - level)
                    &&& old(self).fitting() && old(self).narrow(level as int) ==> {
                        &&& final(self).narrow(level + 1)
                        &&& level == 0 || old(self).levels@[level as int].pending() >= 2
                            ==> final(self).narrow(level as int)
                    }
                },
                Err(e) => old(self).write_failure(
                    old(sink),
                    e,
                    MAX_LEVELS - level,
                    old(self).steep_at(level as int),
                ),
            },
        decreases MAX_LEVELS - level,
    {
        let ghost k = level as int;
        let (ordinal, separator, refs) = match self.write_level(sink, level) {
            Ok(done) => done,
            Err(e) => return Err(e),
        };
        let ghost mid = *self;
        let ghost sink1 = *sink;
        proof {
            if old(self).fitting() && old(self).narrow(k) {
                assert forall|i: int| 1 <= i < mid.levels@.len() implies tapers(
                    (#[trigger] mid.levels@[i]).done@,
                    i >= k + 1,
                ) by {
                    assert(tapers(old(self).levels@[i].done@, i >= k));
                }
                assert(mid.narrow(k + 1));
                if k == 0 || old(self).levels@[k].pending() >= 2 {
                    assert forall|i: int| 1 <= i < mid.levels@.len() implies tapers(
                        (#[trigger] mid.levels@[i]).done@,
                        i >= k,
                    ) by {
                        assert(tapers(old(self).levels@[i].done@, i >= k));
                    }
                    assert(mid.narrow(k));
                }
                if k + 1 == MAX_LEVELS && old(self).levels@[k].pending() >= 2 {
                    assert(mid.levels@[k].done@.last().node.count >= 2);
                    if mid.levels@.len() == MAX_LEVELS {
                        assert forall|i: int| 1 <= i < mid.levels@.len() implies tapers(
                            (#[trigger] mid.levels@[i]).done@,
                            i >= MAX_LEVELS,
                        ) by {
                            assert(tapers(mid.levels@[i].done@, i >= k));
                        }
                        assert(mid.narrow(MAX_LEVELS as int));
                        mid.lemma_tower(sink);
                    }
                }
            }
        }
        match self.ensure_parent(sink, level) {
            Ok(_) => {},
            Err(e) => return Err(e),
        }
        let parent = level + 1;
        let ghost grown = *self;
        proof {
            if old(self).fitting() && self.levels@[k + 1].pending() <= 1 {
                self.lemma_two_separators(sink, k, separator@);
            }
            assert(self.level_ok(k + 1, sink.pages(), sink.offsets()));
            assert(self.levels@[k] == mid.levels@[k]);
        }
        let stored_len: usize = if self.layout.omitted_keys {
            0
        } else {
            separator.len()
        };
        let waiting = self.levels[parent].parts.len();
        let needs = self.separator_needs(parent, stored_len);
        if needs > self.page_size {
            if waiting == 0 {
                // Not even one separator fits, so no number of levels would hold them.
                return Err(
                    Error::corrupt(
                        "internal error: the tree reached 64 levels without the entry count falling",
                    ),
                );
            }
            match self.rotate(sink, parent) {
                Ok(_) => {},
                Err(e) => return Err(e),
            }
            proof {
                assert(self.levels@[k] == grown.levels@[k]);
            }
        }
        let ghost ready = *self;
        self.feed_parent(sink, level, ordinal, &separator);
        proof {
            assert(self.levels@[k] == ready.levels@[k]);
            assert forall|i: int| 0 <= i < k implies #[trigger] self.levels@[i] == old(self).levels@[i] by {
                assert(mid.levels@[i] == old(self).levels@[i]);
                assert(grown.levels@[i] == mid.levels@[i]);
                assert(ready.levels@[i] == grown.levels@[i]);
                assert(self.levels@[i] == ready.levels@[i]);
            }
            assert(mid.levels@[0] == grown.levels@[0]);
            assert(grown.levels@[0] == ready.levels@[0]);
            assert(ready.levels@[0] == self.levels@[0]);
            assert forall|q: int, r: PageRef| old(self).located(q, r) implies #[trigger] self.located(
                q,
                r,
            ) by {
                assert(mid.located(q, r));
            }
            if k == 0 {
                let at = level::written(old(self).levels@[0].done@);
                assert forall|i: int| 0 <= i < refs@.len() implies self.located(
                    at + i,
                    #[trigger] refs@[i],
                ) by {
                    assert(mid.located(at + i, refs@[i]));
                }
            }
        }
        Ok(refs)
    }

    /// What a level needs as a page with one more separator.
    fn separator_needs(&self, level: usize, stored_key_len: usize) -> (r: usize)
        requires
            level < self.levels@.len(),
            self.levels@[level as int].parts.wf(),
        ensures
            ({
                let l = self.levels@[level as int];
                let want = PAGE_PREFIX_LEN + self.layout.digest_area(l.pending() + 1)
                    + self.layout.internal_meta(l.pending() + 1) + l.parts.payload@.len()
                    + stored_key_len + 8;
                r == want || (want > usize::MAX && r == usize::MAX)
            }),
    {
        let l = &self.levels[level];
        let n = l.parts.len();
        if n == usize::MAX {
            proof {
                crate::format::eytzinger::lemma_complete_height((n + 1) as nat);
            }
            return usize::MAX;
        }
        match l.needs(NodeKind::Internal, self.layout, n + 1) {
            Some(len) => len.saturating_add(stored_key_len).saturating_add(8),
            None => usize::MAX,
        }
    }

    /// A parent that is there, or was just made, is ready to be fed.
    proof fn lemma_parent_ready<T: BuildTarget, D: Scratch>(
        mid: &TreeWriter,
        grown: &TreeWriter,
        sink: &PageSink<T, D>,
        k: int,
    )
        requires
            mid.written_ok(sink, k),
            k + 1 == mid.levels@.len() ==> mid.levels@.len() < MAX_LEVELS,
            grown.page_size == mid.page_size,
            grown.layout == mid.layout,
            grown.encoding == mid.encoding,
            grown.rows == mid.rows,
            grown.start == mid.start,
            k + 1 < mid.levels@.len() ==> grown.levels@ == mid.levels@,
            k + 1 == mid.levels@.len() ==> grown.levels@.len() == mid.levels@.len() + 1
                && grown.levels@.drop_last() == mid.levels@ && grown.levels@.last().pending() == 0
                && grown.levels@.last().parts.wf() && grown.levels@.last().fed@.len() == 0
                && grown.levels@.last().done@.len() == 0 && (forall|
                style: Style,
                pages: Seq<Seq<u8>>,
                offsets: Seq<u64>,
            |
                #[trigger] grown.levels@.last().ok(style, pages, offsets)),
        ensures
            grown.levels_ok(sink, k + 1),
            k + 1 < grown.levels@.len(),
            grown.levels@[k] == mid.levels@[k],
            grown.levels@[k + 1].fed@.len() + 1 == grown.levels@[k].done@.len(),
    {
        let n = mid.levels@.len() as int;
        assert forall|i: int| 0 <= i < n implies #[trigger] grown.levels@[i]
            == mid.levels@[i] by {
            if k + 1 == n {
                assert(grown.levels@.drop_last()[i] == grown.levels@[i]);
            }
        }
        assert forall|i: int| 0 <= i < grown.levels@.len() implies #[trigger] grown.level_ok(
            i,
            sink.pages(),
            sink.offsets(),
        ) by {
            if i < n {
                assert(mid.level_ok(i, sink.pages(), sink.offsets()));
            } else {
                assert(grown.levels@.last().ok(grown.style(i), sink.pages(), sink.offsets()));
            }
        }
        assert(levels_apart(grown.levels@)) by {
            assert forall|x: int, y: int, o: PageOrdinal| 0 <= x < y < grown.levels@.len() implies !(
            #[trigger] grown.levels@[x].owns(o) && #[trigger] grown.levels@[y].owns(o)) by {
                if y < n {
                    assert(!(mid.levels@[x].owns(o) && mid.levels@[y].owns(o)));
                } else {
                    assert(grown.levels@[y].done@.len() == 0);
                }
            }
        }
        assert forall|x: int, o: PageOrdinal|
            0 <= x < grown.levels@.len() && #[trigger] grown.levels@[x].owns(o) implies grown.start@
            <= o.get() by {
            if x < n {
                assert(mid.levels@[x].owns(o));
            } else {
                assert(grown.levels@[x].done@.len() == 0);
            }
        }
        assert forall|i: int| 1 <= i < grown.levels@.len() implies #[trigger] fed_pages(
            grown.levels@[i].fed@,
            grown.levels@[i - 1].done@,
        ) by {
            if i < n {
                assert(fed_pages(mid.levels@[i].fed@, mid.levels@[i - 1].done@));
            }
        }
        assert forall|i: int| k + 1 < i < grown.levels@.len() implies #[trigger] all_fed(
            grown.levels@,
            i,
        ) by {
            assert(all_fed(mid.levels@, i));
        }
        if grown.fitting() {
            assert(mid.fitting());
            assert forall|i: int| 0 <= i < grown.levels@.len() implies (
            #[trigger] grown.levels@[i]).page_len(grown.style(i)) <= grown.page_size by {
                if i < n {
                    assert(mid.levels@[i].page_len(mid.style(i)) <= mid.page_size);
                } else {
                    reveal_with_fuel(crate::format::eytzinger::complete, 2);
                }
            }
        }
    }

    /// After the page has been promoted, the levels above are complete again.
    proof fn lemma_promoted<T: BuildTarget, D: Scratch>(
        ready: &TreeWriter,
        now: &TreeWriter,
        sink: &PageSink<T, D>,
        k: int,
        stored_len: int,
    )
        requires
            ready.levels_ok(sink, k + 1),
            0 <= k,
            k + 1 < ready.levels@.len(),
            ready.levels@[k].done@.len() > 0,
            ready.levels@[k + 1].fed@.len() + 1 == ready.levels@[k].done@.len(),
            now.page_size == ready.page_size,
            now.layout == ready.layout,
            now.encoding == ready.encoding,
            now.rows == ready.rows,
            now.start == ready.start,
            now.levels@.len() == ready.levels@.len(),
            forall|i: int|
                0 <= i < ready.levels@.len() && i != k + 1 ==> now.levels@[i] == ready.levels@[i],
            now.levels@[k + 1].ok(now.style(k + 1), sink.pages(), sink.offsets()),
            now.levels@[k + 1].done@ == ready.levels@[k + 1].done@,
            now.levels@[k + 1].pending() == ready.levels@[k + 1].pending() + 1,
            now.levels@[k + 1].fed@.len() == ready.levels@[k + 1].fed@.len() + 1,
            forall|i: int|
                0 <= i < ready.levels@[k + 1].fed@.len() ==> #[trigger] now.levels@[k + 1].fed@[i]
                    == ready.levels@[k + 1].fed@[i],
            now.levels@[k + 1].fed@.last().key == ready.levels@[k].done@.last().key,
            now.levels@[k + 1].fed@.last().ordinal == ready.levels@[k].done@.last().node.ordinal,
            now.levels@[k + 1].parts.payload@.len() == ready.levels@[k + 1].parts.payload@.len()
                + stored_len + 8,
            stored_len == stored_key_len(
                now.layout,
                ready.levels@[k].done@.last().key.len() as int,
            ),
            // There was room, or the separator is the first of its page.
            ready.levels@[k + 1].pending() == 0 || PAGE_PREFIX_LEN + now.layout.digest_area(
                ready.levels@[k + 1].pending() + 1,
            ) + now.layout.internal_meta(ready.levels@[k + 1].pending() + 1)
                + ready.levels@[k + 1].parts.payload@.len() + stored_len + 8 <= now.page_size,
        ensures
            now.levels_ok(sink, k),
    {
        let p = k + 1;
        assert forall|i: int| 0 <= i < now.levels@.len() implies #[trigger] now.level_ok(
            i,
            sink.pages(),
            sink.offsets(),
        ) by {
            assert(ready.level_ok(i, sink.pages(), sink.offsets()));
        }
        assert(levels_apart(now.levels@)) by {
            assert forall|x: int, y: int, o: PageOrdinal| 0 <= x < y < now.levels@.len() implies !(
            #[trigger] now.levels@[x].owns(o) && #[trigger] now.levels@[y].owns(o)) by {
                assert(!(ready.levels@[x].owns(o) && ready.levels@[y].owns(o)));
                assert(now.levels@[x].done@ == ready.levels@[x].done@);
                assert(now.levels@[y].done@ == ready.levels@[y].done@);
                assert(now.levels@[x].owns(o) == ready.levels@[x].owns(o));
                assert(now.levels@[y].owns(o) == ready.levels@[y].owns(o));
            }
        }
        assert forall|x: int, o: PageOrdinal|
            0 <= x < now.levels@.len() && #[trigger] now.levels@[x].owns(o) implies now.start@
            <= o.get() by {
            assert(now.levels@[x].done@ == ready.levels@[x].done@);
            assert(ready.levels@[x].owns(o));
        }
        assert forall|i: int| 1 <= i < now.levels@.len() implies #[trigger] fed_pages(
            now.levels@[i].fed@,
            now.levels@[i - 1].done@,
        ) by {
            assert(fed_pages(ready.levels@[i].fed@, ready.levels@[i - 1].done@));
            assert(now.levels@[i - 1].done@ == ready.levels@[i - 1].done@);
            if i == p {
                assert forall|j: int| 0 <= j < now.levels@[p].fed@.len() implies (
                #[trigger] now.levels@[p].fed@[j]).key == now.levels@[k].done@[j].key
                    && now.levels@[p].fed@[j].ordinal == now.levels@[k].done@[j].node.ordinal by {
                    if j < ready.levels@[p].fed@.len() {
                        assert(now.levels@[p].fed@[j] == ready.levels@[p].fed@[j]);
                    }
                }
            }
        }
        assert forall|i: int| k < i < now.levels@.len() implies #[trigger] all_fed(
            now.levels@,
            i,
        ) by {
            if i > p {
                assert(all_fed(ready.levels@, i));
                assert(now.levels@[i - 1].done@ == ready.levels@[i - 1].done@);
            }
        }
        assert(now.levels@.last().done@.len() == 0) by {
            assert(now.levels@.last().done@ == ready.levels@.last().done@);
        }
        if now.fitting() {
            assert(ready.fitting());
            assert forall|i: int| 0 <= i < now.levels@.len() implies (
            #[trigger] now.levels@[i]).page_len(now.style(i)) <= now.page_size by {
                assert(ready.levels@[i].page_len(ready.style(i)) <= ready.page_size);
                if i == p && ready.levels@[p].pending() == 0 {
                    ready.lemma_done_firsts(sink, k + 1);
                    let f = ready.levels@[k].done@.last().node.first;
                    assert(ready.levels@[k].done@[ready.levels@[k].done@.len() - 1].node.first
                        == f);
                    lemma_fed_fit(ready, k, f);
                    let len = ready.levels@[k].done@.last().key.len() as int;
                    lemma_two_fit(now.page_size as int, now.layout, len, len);
                    assert(ready.level_ok(p, sink.pages(), sink.offsets()));
                    assert(ready.levels@[p].parts.payload@.len() == 0);
                }
            }
        }
    }
}

impl TreeWriter {
    /// A page that belongs to no level leaves the levels as they were.
    proof fn lemma_page_added<T: BuildTarget, D: Scratch>(&self, a: &PageSink<T, D>, b: &PageSink<T, D>)
        requires
            self.wf(a),
            b.wf(),
            b.filter() == a.filter(),
            b.dependable() == a.dependable(),
            b.base() == a.base(),
            b.file().len() >= a.file().len(),
            b.file().subrange(0, a.file().len() as int) == a.file(),
            exists|page: Seq<u8>| b.pages() == #[trigger] a.pages().push(page),
            exists|offset: u64| b.offsets() == #[trigger] a.offsets().push(offset),
        ensures
            self.wf(b),
            sink_grew(a, b, self.start@),
    {
        a.lemma_wf();
        b.lemma_wf();
        assert(level::pages_kept(a.pages(), b.pages(), None));
        assert forall|i: int| 0 <= i < a.offsets().len() implies #[trigger] b.offsets()[i]
            == a.offsets()[i] by {}
        assert forall|k: int| 0 <= k < self.levels@.len() implies #[trigger] self.level_ok(
            k,
            b.pages(),
            b.offsets(),
        ) by {
            assert(self.level_ok(k, a.pages(), a.offsets()));
            level::lemma_level_kept(
                &self.levels@[k],
                self.style(k),
                a.pages(),
                b.pages(),
                a.offsets(),
                b.offsets(),
                None,
            );
        }
        assert(refs_kept(a.pages(), b.pages())) by {
            assert forall|r: PageRef, v: Seq<u8>|
                level::refers_to(a.pages(), r, v) implies #[trigger] level::refers_to(
                b.pages(),
                r,
                v,
            ) by {
                level::lemma_refers_kept(a.pages(), b.pages(), None, r, v);
            }
        }
        assert(b.file().subrange(0, a.base()) =~= a.file().subrange(0, a.base())) by {
            let whole = b.file().subrange(0, a.file().len() as int);
            assert forall|i: int| 0 <= i < a.base() implies #[trigger] b.file()[i]
                == a.file()[i] by {
                assert(whole[i] == a.file()[i]);
            }
        }
        self.lemma_extras_kept(a, b);
    }

    /// Placed rows stay where they are.
    proof fn lemma_extras_kept<T: BuildTarget, D: Scratch>(&self, a: &PageSink<T, D>, b: &PageSink<T, D>)
        requires
            self.extras_ok(a),
            refs_kept(a.pages(), b.pages()),
        ensures
            self.extras_ok(b),
    {
        assert forall|i: int| 0 <= i < self.placed@.len() implies #[trigger] self.placed_at(
            i,
            b.pages(),
        ) by {
            assert(self.placed_at(i, a.pages()));
            let p = self.placed@[i];
            assert(level::refers_to(b.pages(), p.reference, self.rows@[p.row@].value));
        }
    }

    /// Writes a value that does not fit inline onto its own page.
    fn write_blob_page<T: BuildTarget, D: Scratch>(&self, sink: &mut PageSink<T, D>, value: &[u8]) -> (r: Result<
        PageOrdinal,
        Error,
    >)
        requires
            self.wf(old(sink)),
            PAGE_PREFIX_LEN + value@.len() <= 0x7FFF_FFFF,
        ensures
            final(sink).dependable() == old(sink).dependable(),
            final(sink).filter() == old(sink).filter(),
            match r {
                Ok(ordinal) => {
                    &&& self.wf(final(sink))
                    &&& sink_grew(old(sink), final(sink), self.start@)
                    &&& ordinal.get() == old(sink).pages().len()
                    &&& ordinal.get() < final(sink).pages().len()
                    &&& final(sink).pages()[ordinal.get() as int] == level::blob_image(value@)
                    &&& sink::within(old(sink), final(sink), 1)
                },
                Err(e) => e.kind() == ErrorKind::Io && !old(sink).dependable() || e.kind()
                    == ErrorKind::ValueTooLarge && old(sink).crowded(1),
            },
    {
        let ghost before = *sink;
        let page_len = PAGE_PREFIX_LEN + value.len();
        let mut page: Vec<u8> = Vec::new();
        put_le4(&mut page, page_len as u64);
        put_le4(&mut page, 0);
        put_le4(&mut page, 0);
        put_i64(&mut page, -1);
        put_i64(&mut page, -1);
        put_slice(&mut page, value);
        proof {
            assert(page@ =~= level::blob_image(value@));
            level::lemma_blob(value@);
        }
        let (ordinal, offset) = sink.write_page(page.as_slice())?;
        proof {
            assert(sink.pages() == before.pages().push(page@));
            assert(sink.offsets() == before.offsets().push(offset));
            self.lemma_page_added(&before, sink);
        }
        Ok(ordinal)
    }

    /// Hands on the index keys of the rows waiting, now that their values have landed at
    /// `refs`. The rows are those from `at` on.
    fn place_rows<T: BuildTarget, D: Scratch>(
        &mut self,
        sink: &PageSink<T, D>,
        refs: &Vec<PageRef>,
        Ghost(at): Ghost<int>,
    )
        requires
            0 <= at,
            at + refs@.len() == old(self).rows@.len(),
            old(self).row_keys@.len() == old(self).rows@.len(),
            old(self).extras@.len() == refs@.len(),
            old(self).placed@.len() <= at,
            forall|j: int|
                0 <= j < refs@.len() ==> strings((#[trigger] old(self).extras@[j])@)
                    == old(self).row_keys@[at + j],
            forall|j: int|
                0 <= j < refs@.len() ==> level::refers_to(
                    sink.pages(),
                    #[trigger] refs@[j],
                    old(self).rows@[at + j].value,
                ) && old(self).located(at + j, refs@[j]),
            forall|j: int|
                0 <= j < old(self).placed@.len() ==> old(self).placed_ok(
                    #[trigger] old(self).placed@[j],
                    sink.pages(),
                ) && old(self).placed@[j].row@ == at - old(self).placed@.len() + j,
        ensures
            final(self).levels == old(self).levels,
            final(self).page_size == old(self).page_size,
            final(self).layout == old(self).layout,
            final(self).encoding == old(self).encoding,
            final(self).start == old(self).start,
            final(self).rows == old(self).rows,
            final(self).row_keys == old(self).row_keys,
            final(self).extras@.len() == 0,
            final(self).placed@.len() == old(self).placed@.len() + refs@.len(),
            final(self).placed@.subrange(0, old(self).placed@.len() as int) == old(self).placed@,
            forall|j: int|
                0 <= j < final(self).placed@.len() ==> final(self).placed_ok(
                    #[trigger] final(self).placed@[j],
                    sink.pages(),
                ) && final(self).placed@[j].row@ == final(self).rows@.len()
                    - final(self).placed@.len() + j,
    {
        let ghost was = *self;
        let mut extras: Vec<Vec<Vec<u8>>> = Vec::new();
        std::mem::swap(&mut extras, &mut self.extras);
        self.pending_extra = 0;
        let ghost all = extras@;
        let ghost placed0 = self.placed@;
        let n = extras.len();
        let mut i: usize = 0;
        while i < n
            invariant
                i <= n,
                n == all.len(),
                n == refs@.len(),
                at + n == was.rows@.len(),
                0 <= at,
                placed0 == was.placed@,
                placed0.len() <= at,
                extras@.len() == n,
                forall|j: int| i <= j < n ==> extras@[j] == all[j],
                forall|j: int|
                    0 <= j < n ==> strings((#[trigger] all[j])@) == was.row_keys@[at + j],
                forall|j: int|
                    0 <= j < n ==> level::refers_to(
                        sink.pages(),
                        #[trigger] refs@[j],
                        was.rows@[at + j].value,
                    ) && was.located(at + j, refs@[j]),
                self.rows == was.rows,
                self.row_keys == was.row_keys,
                self.levels == was.levels,
                self.page_size == was.page_size,
                self.layout == was.layout,
                self.encoding == was.encoding,
                self.start == was.start,
                self.extras@.len() == 0,
                self.placed@.len() == placed0.len() + i,
                self.placed@.subrange(0, placed0.len() as int) == placed0,
                forall|j: int|
                    0 <= j < self.placed@.len() ==> was.placed_ok(
                        #[trigger] self.placed@[j],
                        sink.pages(),
                    ) && self.placed@[j].row@ == at + j - placed0.len(),
            decreases n - i,
        {
            let mut keys: Vec<Vec<u8>> = Vec::new();
            std::mem::swap(&mut keys, &mut extras[i]);
            let ghost before = self.placed@;
            self.placed.push(Placed { keys, reference: refs[i], row: Ghost(at + i) });
            proof {
                assert(self.placed@.subrange(0, placed0.len() as int) =~= placed0) by {
                    assert forall|j: int| 0 <= j < placed0.len() implies self.placed@[j]
                        == placed0[j] by {
                        assert(before.subrange(0, placed0.len() as int)[j] == placed0[j]);
                    }
                }
                assert(strings(all[i as int]@) == was.row_keys@[at + i]);
                assert(level::refers_to(sink.pages(), refs@[i as int], was.rows@[at + i].value));
                assert forall|j: int| 0 <= j < self.placed@.len() implies was.placed_ok(
                    #[trigger] self.placed@[j],
                    sink.pages(),
                ) && self.placed@[j].row@ == at + j - placed0.len() by {
                    if j < before.len() {
                        assert(self.placed@[j] == before[j]);
                    }
                }
            }
            i += 1;
        }
        proof {
            assert forall|j: int| 0 <= j < self.placed@.len() implies self.placed_ok(
                #[trigger] self.placed@[j],
                sink.pages(),
            ) && self.placed@[j].row@ == self.rows@.len() - self.placed@.len() + j by {
                assert(was.placed_ok(self.placed@[j], sink.pages()));
            }
        }
    }

    /// What [`place_rows`](TreeWriter::place_rows) needs to know of the rows placed before.
    proof fn lemma_placed_before<T: BuildTarget, D: Scratch>(&self, a: &PageSink<T, D>, b: &PageSink<T, D>)
        requires
            self.wf(a),
            refs_kept(a.pages(), b.pages()),
        ensures
            0 <= self.written_rows() <= self.rows@.len(),
            self.written_rows() + self.levels@[0].pending() == self.rows@.len(),
            forall|j: int|
                0 <= j < self.placed@.len() ==> self.placed_ok(
                    #[trigger] self.placed@[j],
                    b.pages(),
                ) && self.placed@[j].row@ == self.written_rows() - self.placed@.len() + j,
    {
        assert(self.level_ok(0, a.pages(), a.offsets()));
        level::lemma_written(&self.levels@[0], self.style(0), a.pages(), a.offsets());
        assert forall|j: int| 0 <= j < self.placed@.len() implies self.placed_ok(
            #[trigger] self.placed@[j],
            b.pages(),
        ) && self.placed@[j].row@ == self.written_rows() - self.placed@.len() + j by {
            assert(self.placed_at(j, a.pages()));
            let p = self.placed@[j];
            assert(level::refers_to(b.pages(), p.reference, self.rows@[p.row@].value));
        }
    }

    /// Writes the leaf page, and hands on the index keys of its rows.
    fn rotate_leaf<T: BuildTarget, D: Scratch>(&mut self, sink: &mut PageSink<T, D>) -> (r: Result<(), Error>)
        requires
            old(self).wf(old(sink)),
            old(self).levels@[0].pending() > 0,
        ensures
            final(sink).dependable() == old(sink).dependable(),
            final(sink).filter() == old(sink).filter(),
            match r {
                Ok(_) => {
                    &&& TreeWriter::went_on(old(self), final(self), old(sink), final(sink))
                    &&& final(self).rows == old(self).rows
                    &&& final(self).row_keys == old(self).row_keys
                    &&& final(self).levels@[0].pending() == 0
                    &&& final(self).levels@.len() > 1
                    &&& final(self).levels@.len() >= old(self).levels@.len()
                    &&& sink::within(old(sink), final(sink), 64)
                    &&& old(self).fair() ==> final(self).fair()
                },
                Err(e) => old(self).write_failure(old(sink), e, 64, old(self).steep()),
            },
    {
        let ghost was = *self;
        let ghost sink0 = *sink;
        let ghost at = self.written_rows();
        let refs = match self.rotate(sink, 0) {
            Ok(refs) => refs,
            Err(e) => return Err(e),
        };
        let ghost mid = *self;
        proof {
            was.lemma_placed_before(&sink0, sink);
            mid.lemma_level0_written(sink);
        }
        self.place_rows(sink, &refs, Ghost(at));
        proof {
            self.lemma_same_levels(&mid, sink);
            assert forall|j: int| 0 <= j < self.placed@.len() implies #[trigger] self.placed_at(
                j,
                sink.pages(),
            ) by {
                assert(self.placed_ok(self.placed@[j], sink.pages()));
            }
            assert forall|q: int, r: PageRef| was.located(q, r) implies #[trigger] self.located(
                q,
                r,
            ) by {
                assert(mid.located(q, r));
            }
        }
        Ok(())
    }

    /// After the leaf page has been written, everything fed has been.
    proof fn lemma_level0_written<T: BuildTarget, D: Scratch>(&self, sink: &PageSink<T, D>)
        requires
            self.levels_ok(sink, 0),
            self.levels@[0].pending() == 0,
        ensures
            level::written(self.levels@[0].done@) == self.rows@.len(),
    {
        assert(self.level_ok(0, sink.pages(), sink.offsets()));
    }

    /// Levels that did not change are still in order.
    proof fn lemma_same_levels<T: BuildTarget, D: Scratch>(&self, other: &TreeWriter, sink: &PageSink<T, D>)
        requires
            other.levels_ok(sink, 0),
            self.levels@ == other.levels@,
            self.page_size == other.page_size,
            self.layout == other.layout,
            self.encoding == other.encoding,
            self.rows == other.rows,
            self.start == other.start,
        ensures
            self.levels_ok(sink, 0),
    {
        assert forall|k: int| 0 <= k < self.levels@.len() implies #[trigger] self.level_ok(
            k,
            sink.pages(),
            sink.offsets(),
        ) by {
            assert(other.level_ok(k, sink.pages(), sink.offsets()));
        }
        assert(other.pages_own(sink.pages().len() as int));
        if self.fitting() {
            assert(other.fitting());
            assert forall|k: int| 0 <= k < self.levels@.len() implies (
            #[trigger] self.levels@[k]).page_len(self.style(k)) <= self.page_size by {
                assert(other.levels@[k].page_len(other.style(k)) <= other.page_size);
            }
        }
    }

    /// Takes the rows whose page has been written since this was last asked.
    pub fn take_placed<T: BuildTarget, D: Scratch>(&mut self, sink: &PageSink<T, D>) -> (r: Vec<Placed>)
        requires
            old(self).wf(sink),
        ensures
            final(self).wf(sink),
            old(self).fair() ==> final(self).fair(),
            r@ == old(self).waiting(),
            all_placed(
                r@,
                old(self).written_rows(),
                old(self).rows(),
                old(self).row_keys(),
                sink.pages(),
            ),
            forall|i: int|
                0 <= i < r@.len() ==> final(self).located(
                    (#[trigger] r@[i]).row@,
                    r@[i].reference,
                ),
            TreeWriter::kept_located(old(self), final(self)),
            final(self).waiting() == Seq::<Placed>::empty(),
            final(self).rows() == old(self).rows(),
            final(self).row_keys() == old(self).row_keys(),
            final(self).written_rows() == old(self).written_rows(),
            final(self).key_encoding() == old(self).key_encoding(),
            final(self).page_layout() == old(self).page_layout(),
            final(self).size_of_page() == old(self).size_of_page(),
            final(self).first_page() == old(self).first_page(),
    {
        let mut placed: Vec<Placed> = Vec::new();
        std::mem::swap(&mut placed, &mut self.placed);
        proof {
            self.lemma_same_levels(old(self), sink);
            old(self).lemma_placed_before(sink, sink);
            assert(self.placed@ =~= Seq::<Placed>::empty());
            assert(self.level_ok(0, sink.pages(), sink.offsets()));
            level::lemma_written(&self.levels@[0], self.style(0), sink.pages(), sink.offsets());
        }
        placed
    }
}

impl TreeWriter {
    /// What the leaf page needs with one more entry.
    spec fn leaf_want(&self, stored_key: int, value_len: int) -> int {
        let l = self.levels@[0];
        PAGE_PREFIX_LEN + self.layout.digest_area(l.pending() + 1) + self.layout.leaf_meta(
            l.pending() + 1,
        ) + l.parts.payload@.len() + stored_key + value_len
    }

    /// Whether the leaf page has room for one more entry.
    fn has_room(&self, stored_key: usize, value_len: usize) -> (r: bool)
        requires
            self.levels@.len() > 0,
            self.levels@[0].parts.wf(),
            self.page_size < usize::MAX,
        ensures
            r == (self.leaf_want(stored_key as int, value_len as int) <= self.page_size),
    {
        let l = &self.levels[0];
        let n = l.parts.len();
        if n == usize::MAX {
            proof {
                crate::format::eytzinger::lemma_complete_height((n + 1) as nat);
            }
            return false;
        }
        let needs = match l.needs(NodeKind::Leaf, self.layout, n + 1) {
            Some(len) => len.saturating_add(stored_key).saturating_add(value_len),
            None => usize::MAX,
        };
        needs <= self.page_size
    }

    /// After a row has been fed to the leaves, the levels are in order with that row.
    proof fn lemma_row_pushed<T: BuildTarget, D: Scratch>(
        was: &TreeWriter,
        now: &TreeWriter,
        sink: &PageSink<T, D>,
        row: Row,
        stored_key: int,
        tail: int,
    )
        requires
            was.wf(sink),
            now.page_size == was.page_size,
            now.layout == was.layout,
            now.encoding == was.encoding,
            now.start == was.start,
            now.placed == was.placed,
            now.rows@ == was.rows@.push(row),
            now.levels@.len() == was.levels@.len(),
            forall|i: int| 1 <= i < was.levels@.len() ==> now.levels@[i] == was.levels@[i],
            now.levels@[0].ok(now.style(0), sink.pages(), sink.offsets()),
            now.levels@[0].packed(now.layout, now.page_size as int),
            now.levels@[0].done@ == was.levels@[0].done@,
            now.levels@[0].pending() == was.levels@[0].pending() + 1,
            now.levels@[0].parts.payload@.len() == was.levels@[0].parts.payload@.len() + stored_key
                + tail,
            now.levels@[0].fed@.len() == was.levels@[0].fed@.len() + 1,
            forall|i: int|
                0 <= i < was.levels@[0].fed@.len() ==> #[trigger] now.levels@[0].fed@[i]
                    == was.levels@[0].fed@[i],
            now.levels@[0].fed@.last().key == row.key,
            now.levels@[0].fed@.last().value == row.value,
            was.encoding.inner.accepts(row.key),
            was.encoding.inner.well_formed(row.key),
            was.rows@.len() > 0 ==> was.encoding.inner.sign(was.rows@.last().key, row.key) < 0,
            was.leaf_want(stored_key, tail) <= was.page_size,
            now.extras@.len() == was.extras@.len() + 1,
            forall|i: int| 0 <= i < was.extras@.len() ==> now.extras@[i] == was.extras@[i],
            now.row_keys@ == was.row_keys@.push(strings(now.extras@.last()@)),
        ensures
            now.wf(sink),
            TreeWriter::kept_located(was, now),
    {
        let pages = sink.pages();
        let offsets = sink.offsets();
        assert forall|q: int, r: PageRef| was.located(q, r) implies #[trigger] now.located(q, r) by {
            let l = &was.levels@[0];
            assert(was.level_ok(0, pages, offsets));
            let j = choose|j: int|
                0 <= j < l.done@.len() && #[trigger] level::value_at(l.done@[j], l.fed@, q, r);
            assert(level::built_ok(was.style(0), pages, l.fed@, l.done@, j));
            assert(now.levels@[0].fed@[q] == l.fed@[q]);
            assert(level::value_at(now.levels@[0].done@[j], now.levels@[0].fed@, q, r));
        }
        assert forall|k: int| 0 <= k < now.levels@.len() implies #[trigger] now.level_ok(
            k,
            pages,
            offsets,
        ) by {
            assert(was.level_ok(k, pages, offsets));
        }
        assert(levels_apart(now.levels@)) by {
            assert forall|x: int, y: int, o: PageOrdinal| 0 <= x < y < now.levels@.len() implies !(
            #[trigger] now.levels@[x].owns(o) && #[trigger] now.levels@[y].owns(o)) by {
                assert(!(was.levels@[x].owns(o) && was.levels@[y].owns(o)));
                assert(now.levels@[x].done@ == was.levels@[x].done@);
                assert(now.levels@[y].done@ == was.levels@[y].done@);
                assert(now.levels@[x].owns(o) == was.levels@[x].owns(o));
                assert(now.levels@[y].owns(o) == was.levels@[y].owns(o));
            }
        }
        assert forall|x: int, o: PageOrdinal|
            0 <= x < now.levels@.len() && #[trigger] now.levels@[x].owns(o) implies now.start@
            <= o.get() by {
            assert(now.levels@[x].done@ == was.levels@[x].done@);
            assert(was.levels@[x].owns(o));
        }
        assert forall|k: int| 1 <= k < now.levels@.len() implies #[trigger] fed_pages(
            now.levels@[k].fed@,
            now.levels@[k - 1].done@,
        ) by {
            assert(fed_pages(was.levels@[k].fed@, was.levels@[k - 1].done@));
            assert(now.levels@[k - 1].done@ == was.levels@[k - 1].done@);
        }
        assert forall|k: int| 0 < k < now.levels@.len() implies #[trigger] all_fed(
            now.levels@,
            k,
        ) by {
            assert(all_fed(was.levels@, k));
            assert(now.levels@[k - 1].done@ == was.levels@[k - 1].done@);
        }
        assert(now.levels@.last().done@ == was.levels@.last().done@);
        assert forall|i: int| 0 <= i < now.levels@[0].fed@.len() implies (
        #[trigger] now.levels@[0].fed@[i]).key == now.rows@[i].key && now.levels@[0].fed@[i].value
            == now.rows@[i].value by {
            if i < was.levels@[0].fed@.len() {
                assert(now.levels@[0].fed@[i] == was.levels@[0].fed@[i]);
            }
        }
        assert(chained(now.encoding, now.rows@)) by {
            assert forall|i: int| 1 <= i < now.rows@.len() implies #[trigger] in_step(
                now.encoding,
                now.rows@,
                i,
            ) by {
                if i < was.rows@.len() {
                    assert(in_step(was.encoding, was.rows@, i));
                }
            }
        }
        if now.fitting() {
            assert(was.fitting()) by {
                assert forall|i: int| 0 <= i < was.rows@.len() implies key_fits(
                    was.page_size as int,
                    was.layout,
                    (#[trigger] was.rows@[i]).key.len() as int,
                ) by {
                    assert(now.rows@[i] == was.rows@[i]);
                }
            }
            assert forall|k: int| 0 <= k < now.levels@.len() implies (
            #[trigger] now.levels@[k]).page_len(now.style(k)) <= now.page_size by {
                assert(was.levels@[k].page_len(was.style(k)) <= was.page_size);
            }
        }
        assert(was.level_ok(0, pages, offsets));
        level::lemma_written(&was.levels@[0], was.style(0), pages, offsets);
        assert(now.rows_placed(pages)) by {
            assert forall|i: int| 0 <= i < now.placed@.len() implies #[trigger] now.placed_at(
                i,
                pages,
            ) by {
                assert(was.placed_at(i, pages));
            }
        }
        assert(now.keys_waiting()) by {
            let at = level::written(now.levels@[0].done@);
            assert forall|i: int| 0 <= i < now.extras@.len() implies strings(
                (#[trigger] now.extras@[i])@,
            ) == now.row_keys@[at + i] by {
                if i < was.extras@.len() {
                    assert(strings(was.extras@[i]@) == was.row_keys@[at + i]);
                }
            }
        }
    }

    /// Whether a row is one the format can hold on pages of this size.
    pub open spec fn row_fits(&self, key: Seq<u8>, value: Seq<u8>) -> bool {
        &&& key.len() <= 0xFFFF
        &&& PAGE_PREFIX_LEN + value.len() <= 0x7FFF_FFFF
        &&& leaf_minimum(self.page_layout(), key.len() as int) <= self.size_of_page()
    }

    /// Whether a key is one that a tree can be built with.
    pub open spec fn key_fits(&self, key: Seq<u8>) -> bool {
        key_fits(self.size_of_page(), self.page_layout(), key.len() as int)
    }

    /// Feeds the leaves one row, on the page or with its value on a blob page.
    fn feed_leaf<T: BuildTarget, D: Scratch>(
        &mut self,
        sink: &PageSink<T, D>,
        key: &[u8],
        value: &[u8],
        digest: u64,
        blob: Option<PageOrdinal>,
        keys: Vec<Vec<u8>>,
    )
        requires
            old(self).wf(sink),
            old(self).row_fits(key@, value@),
            old(self).encoding.inner.accepts(key@),
            old(self).encoding.inner.well_formed(key@),
            digest == old(self).encoding.inner.digest_of(key@),
            old(self).rows@.len() > 0 ==> old(self).encoding.inner.sign(
                old(self).rows@.last().key,
                key@,
            ) < 0,
            match blob {
                Some(o) => o.get() < sink.pages().len() && sink.pages()[o.get() as int]
                    == level::blob_image(value@),
                None => value@.len() < 0xFFFF,
            },
            blob is Some == (value@.len() >= 0xFFFF || old(self).leaf_want(
                stored_key_len(old(self).layout, key@.len() as int),
                value@.len() as int,
            ) > old(self).page_size),
            old(self).leaf_want(
                stored_key_len(old(self).layout, key@.len() as int),
                if blob is Some {
                    8
                } else {
                    value@.len() as int
                },
            ) <= old(self).page_size,
        ensures
            final(self).wf(sink),
            old(self).fair() && old(self).key_fits(key@) ==> final(self).fair(),
            final(self).rows@ == old(self).rows@.push(Row { key: key@, value: value@ }),
            final(self).row_keys@ == old(self).row_keys@.push(strings(keys@)),
            final(self).placed == old(self).placed,
            final(self).encoding == old(self).encoding,
            final(self).layout == old(self).layout,
            final(self).page_size == old(self).page_size,
            final(self).start == old(self).start,
            final(self).written_rows() == old(self).written_rows(),
            final(self).levels@[0].pending() > 0,
            TreeWriter::kept_located(old(self), final(self)),
    {
        let ghost was = *self;
        let ghost t = Thing { key: key@, value: value@, ordinal: PageOrdinal::spec_new(0) };
        let ghost style = self.style(0);
        proof {
            assert(self.level_ok(0, sink.pages(), sink.offsets()));
            sink.lemma_wf();
        }
        let empty: Vec<u8> = Vec::new();
        let stored_key = if self.layout.omitted_keys {
            empty.as_slice()
        } else {
            key
        };
        let mut ordinal_bytes: Vec<u8> = Vec::new();
        let reference = match blob {
            Some(ordinal) => {
                put_le8(&mut ordinal_bytes, ordinal.get());
                Some(
                    PageRef {
                        page: ordinal,
                        start: PageLocalOffset::new(PAGE_PREFIX_LEN as u32),
                        length: value.len() as u32,
                    },
                )
            },
            None => None,
        };
        let tail = match blob {
            Some(_) => ordinal_bytes.as_slice(),
            None => value,
        };
        proof {
            let e = EntryBytes { key: stored_key@, tail: tail@, overflow: reference is Some };
            assert(e.key =~= (if self.layout.omitted_keys {
                Seq::<u8>::empty()
            } else {
                key@
            }));
            if let Some(o) = blob {
                assert(tail@ =~= bytes::le8(o.get() as int));
                assert(level::value_stored(sink.pages(), e, value@));
            }
            assert(level::thing_stored(style, sink.pages(), e, t));
        }
        self.levels[0].feed(
            digest,
            key,
            stored_key,
            tail,
            reference,
            Ghost(t),
            Ghost(style),
            Ghost(sink.pages()),
            Ghost(sink.offsets()),
        );
        proof {
            level::lemma_packed_fed(
                &was.levels@[0],
                &self.levels@[0],
                was.layout,
                was.page_size as int,
                style,
                sink.pages(),
                sink.offsets(),
                EntryBytes { key: stored_key@, tail: tail@, overflow: reference is Some },
                t,
            );
        }
        self.pending_extra = self.pending_extra.saturating_add(extra_bytes(&keys));
        self.extras.push(keys);
        self.rows = Ghost(self.rows@.push(Row { key: key@, value: value@ }));
        self.row_keys = Ghost(self.row_keys@.push(strings(keys@)));
        proof {
            TreeWriter::lemma_row_pushed(
                &was,
                self,
                sink,
                Row { key: key@, value: value@ },
                stored_key@.len() as int,
                tail@.len() as int,
            );
        }
    }

    /// Whether a writer went on with the same settings: what it was placed stays placed,
    /// and the file only grew.
    pub open spec fn went_on<T: BuildTarget, D: Scratch>(
        was: &TreeWriter,
        now: &TreeWriter,
        a: &PageSink<T, D>,
        b: &PageSink<T, D>,
    ) -> bool {
        &&& now.wf(b)
        &&& sink_grew(a, b, was.first_page())
        &&& now.key_encoding() == was.key_encoding()
        &&& now.page_layout() == was.page_layout()
        &&& now.size_of_page() == was.size_of_page()
        &&& now.first_page() == was.first_page()
        &&& was.waiting().len() <= now.waiting().len()
        &&& now.waiting().subrange(0, was.waiting().len() as int) == was.waiting()
        &&& now.written_rows() - now.waiting().len() == was.written_rows() - was.waiting().len()
        &&& TreeWriter::kept_located(was, now)
    }

    /// Going on twice is going on.
    proof fn lemma_went_on<T: BuildTarget, D: Scratch>(
        w0: &TreeWriter,
        w1: &TreeWriter,
        w2: &TreeWriter,
        a: &PageSink<T, D>,
        b: &PageSink<T, D>,
        c: &PageSink<T, D>,
    )
        requires
            TreeWriter::went_on(w0, w1, a, b),
            TreeWriter::went_on(w1, w2, b, c),
        ensures
            TreeWriter::went_on(w0, w2, a, c),
    {
        let n = w0.waiting().len() as int;
        let m = w1.waiting().len() as int;
        assert(w2.waiting().subrange(0, n) =~= w2.waiting().subrange(0, m).subrange(0, n));
        lemma_grew_twice(a, b, c, w0.first_page());
    }

    /// Decides where a row's value goes, writing the leaf page first where that makes
    /// room. Returns whether the value needs a page of its own.
    fn make_room<T: BuildTarget, D: Scratch>(
        &mut self,
        sink: &mut PageSink<T, D>,
        stored_key: usize,
        value_len: usize,
    ) -> (r: Result<bool, Error>)
        requires
            old(self).wf(old(sink)),
            PAGE_PREFIX_LEN + old(self).layout.leaf_meta(1) + old(self).layout.digest_area(1)
                + stored_key + 8 <= old(self).page_size,
        ensures
            final(sink).dependable() == old(sink).dependable(),
            final(sink).filter() == old(sink).filter(),
            match r {
                Ok(overflow) => {
                    &&& TreeWriter::went_on(old(self), final(self), old(sink), final(sink))
                    &&& final(self).rows == old(self).rows
                    &&& final(self).row_keys == old(self).row_keys
                    &&& final(self).leaf_want(
                        stored_key as int,
                        if overflow {
                            8
                        } else {
                            value_len as int
                        },
                    ) <= final(self).page_size
                    &&& !overflow ==> value_len < 0xFFFF
                    &&& overflow ==> value_len >= 0xFFFF || final(self).leaf_want(
                        stored_key as int,
                        value_len as int,
                    ) > final(self).page_size
                    &&& sink::within(old(sink), final(sink), 64)
                    &&& old(self).fair() ==> final(self).fair()
                },
                Err(e) => old(self).write_failure(old(sink), e, 64, old(self).steep()),
            },
    {
        let ghost was = *self;
        let ghost sink0 = *sink;
        proof {
            assert(self.level_ok(0, sink.pages(), sink.offsets()));
            lemma_grew_same(sink, self.start@);
            assert(self.placed@.subrange(0, self.placed@.len() as int) =~= self.placed@);
        }
        let mut overflow = false;
        if !self.has_room(stored_key, value_len) {
            if !self.has_room(stored_key, 8) && self.levels[0].parts.len() > 0 {
                match self.rotate_leaf(sink) {
                    Ok(_) => {},
                    Err(e) => return Err(e),
                }
                proof {
                    assert(self.level_ok(0, sink.pages(), sink.offsets()));
                }
            }
            if !self.has_room(stored_key, value_len) {
                overflow = true;
            }
        }
        // A stored length of 0xFFFF is the overflow sentinel, and the classic metadata
        // layout only has 16 bits for it, so anything at or above that has to overflow.
        if !overflow && value_len >= OVERFLOW_SENTINEL as usize {
            overflow = true;
        }
        proof {
            if self.levels@[0].pending() == 0 {
                assert(self.levels@[0].parts.payload@.len() == 0);
            }
        }
        Ok(overflow)
    }

    /// Appends one entry. Keys must arrive in the encoding's order.
    pub fn push<T: BuildTarget, D: Scratch>(
        &mut self,
        sink: &mut PageSink<T, D>,
        key: &[u8],
        value: &[u8],
        keys: Vec<Vec<u8>>,
    ) -> (r: Result<(), Error>)
        requires
            old(self).wf(old(sink)),
            old(self).key_encoding().inner.well_formed(key@),
            old(self).rows().len() > 0 ==> old(self).key_encoding().inner.sign(
                old(self).rows().last().key,
                key@,
            ) < 0,
        ensures
            final(sink).dependable() == old(sink).dependable(),
            final(sink).filter() == old(sink).filter(),
            !old(self).row_fits(key@, value@) ==> r is Err && r->Err_0.kind()
                == ErrorKind::ValueTooLarge,
            match r {
                Ok(_) => {
                    &&& old(self).row_fits(key@, value@)
                    &&& old(self).key_encoding().inner.accepts(key@)
                    &&& TreeWriter::went_on(old(self), final(self), old(sink), final(sink))
                    &&& final(self).rows() == old(self).rows().push(
                        Row { key: key@, value: value@ },
                    )
                    &&& final(self).row_keys() == old(self).row_keys().push(strings(keys@))
                    &&& sink::within(old(sink), final(sink), PUSH_PAGES as int)
                    &&& old(self).fair() && old(self).key_fits(key@) ==> final(self).fair()
                },
                Err(e) => {
                    ||| e.kind() == ErrorKind::ValueTooLarge && (!old(self).row_fits(key@, value@)
                        || old(sink).crowded(PUSH_PAGES as int))
                    ||| e.kind() == ErrorKind::Io && !old(sink).dependable()
                    ||| e.is_corrupt() && !(old(self).fair() && old(self).key_fits(key@)
                        && old(self).rows().len() + 1 < TOWER_ROWS)
                    ||| !old(self).key_encoding().inner.accepts(key@)
                },
            },
    {
        let ghost was = *self;
        let ghost sink0 = *sink;
        if key.len() > 0xFFFF {
            return Err(
                Error::from_text(
                    ErrorKind::ValueTooLarge,
                    crate::error::message_with(
                        "key is ",
                        key.len() as u64,
                        " bytes; the format stores key lengths as u16",
                    ),
                ),
            );
        }
        if value.len() > 0x7FFF_FFFF - PAGE_PREFIX_LEN {
            return Err(
                Error::from_text(
                    ErrorKind::ValueTooLarge,
                    crate::error::message_with(
                        "value is ",
                        value.len() as u64,
                        " bytes, past the format's 32-bit page length",
                    ),
                ),
            );
        }
        let stored_len: usize = if self.layout.omitted_keys {
            0
        } else {
            key.len()
        };
        proof {
            assert(self.level_ok(0, sink.pages(), sink.offsets()));
            reveal_with_fuel(crate::format::eytzinger::complete, 3);
        }
        // An entry that cannot fit on an empty page even as an overflow reference can
        // never be written.
        let minimum = PAGE_PREFIX_LEN + 8 + stored_len + match (
            self.layout.leaf_meta_size(1),
            self.layout.digest_area_size(1),
        ) {
            (Some(meta), Some(digests)) => meta + digests,
            _ => 0,
        };
        if minimum > self.page_size {
            return Err(
                Error::from_text(
                    ErrorKind::ValueTooLarge,

                    Words::new("a ")
                        .number(key.len() as u64)
                        .say(" byte key needs a page of at least ")
                        .number(minimum as u64)
                        .say(" bytes, but the page size is ")
                        .number(self.page_size as u64)
                        .end(),
                ),
            );
        }
        let digest = match self.encoding.inner.digest(key) {
            Ok(digest) => digest,
            Err(e) => return Err(e),
        };
        let overflow = match self.make_room(sink, stored_len, value.len()) {
            Ok(overflow) => overflow,
            Err(e) => return Err(e),
        };
        let ghost mid = *self;
        let ghost sink1 = *sink;
        let blob = if overflow {
            match self.write_blob_page(sink, value) {
                Ok(ordinal) => Some(ordinal),
                Err(e) => return Err(e),
            }
        } else {
            None
        };
        proof {
            lemma_grew_same(sink, self.start@);
            assert(self.placed@.subrange(0, self.placed@.len() as int) =~= self.placed@);
            TreeWriter::lemma_went_on(&was, &mid, self, &sink0, &sink1, sink);
        }
        let ghost sink2 = *sink;
        self.feed_leaf(sink, key, value, digest, blob, keys);
        let ghost fed = *self;
        proof {
            lemma_grew_same(sink, self.start@);
            assert(self.placed@.subrange(0, self.placed@.len() as int) =~= mid.placed@);
            TreeWriter::lemma_went_on(&was, &mid, self, &sink0, &sink2, sink);
        }
        // The index keys cannot be handed on until the page they belong to is written, so
        // the page is written as soon as they come to more than they may. It holds what
        // it holds; a page need not be full.
        if self.pending_extra > self.extra_budget {
            match self.rotate_leaf(sink) {
                Ok(_) => {},
                Err(e) => return Err(e),
            }
            proof {
                TreeWriter::lemma_went_on(&was, &fed, self, &sink0, &sink2, sink);
            }
        }
        Ok(())
    }
}

impl TreeWriter {
    /// Levels that are in order from some level on, and below it too, are in order.
    proof fn lemma_all_fed<T: BuildTarget, D: Scratch>(&self, sink: &PageSink<T, D>, from: int)
        requires
            self.levels_ok(sink, from),
            forall|k: int|
                1 <= k <= from && k < self.levels@.len() ==> #[trigger] all_fed(self.levels@, k),
        ensures
            self.levels_ok(sink, 0),
    {
    }

    /// Writes what is left on a level above the leaves.
    fn rotate_above<T: BuildTarget, D: Scratch>(&mut self, sink: &mut PageSink<T, D>, level: usize) -> (r: Result<
        (),
        Error,
    >)
        requires
            old(self).wf(old(sink)),
            1 <= level < old(self).levels@.len(),
            old(self).levels@[level as int].pending() > 0,
        ensures
            final(sink).dependable() == old(sink).dependable(),
            final(sink).filter() == old(sink).filter(),
            match r {
                Ok(_) => {
                    &&& TreeWriter::went_on(old(self), final(self), old(sink), final(sink))
                    &&& final(self).rows == old(self).rows
                    &&& final(self).row_keys == old(self).row_keys
                    &&& final(self).levels@.len() > level + 1
                    &&& forall|i: int|
                        0 <= i < level ==> #[trigger] final(self).levels@[i] == old(self).levels@[i]
                    &&& final(self).levels@[level as int].pending() == 0
                    &&& sink::within(old(sink), final(sink), 64)
                    &&& old(self).fitting() && old(self).narrow(level as int) ==> final(self).narrow(level + 1)
                },
                Err(e) => old(self).write_failure(
                    old(sink),
                    e,
                    64,
                    old(self).steep_at(level as int),
                ),
            },
    {
        let ghost was = *self;
        let ghost sink0 = *sink;
        match self.rotate(sink, level) {
            Ok(_) => {},
            Err(e) => return Err(e),
        }
        proof {
            assert forall|k: int| 1 <= k <= level && k < self.levels@.len() implies #[trigger] all_fed(
                self.levels@,
                k,
            ) by {
                assert(all_fed(was.levels@, k));
                assert(self.levels@[k - 1] == was.levels@[k - 1]);
                if k < level {
                    assert(self.levels@[k] == was.levels@[k]);
                }
            }
            self.lemma_all_fed(sink, level as int);
            assert(self.levels@[0] == was.levels@[0]);
            assert(self.placed@.subrange(0, was.placed@.len() as int) =~= was.placed@);
            was.lemma_extras_kept(&sink0, sink);
            assert forall|j: int| 0 <= j < self.placed@.len() implies #[trigger] self.placed_at(
                j,
                sink.pages(),
            ) by {
                assert(was.placed_at(j, sink.pages()));
            }
        }
        Ok(())
    }

    /// Whether the levels below `level` have nothing left to write.
    spec fn empty_below(&self, level: int) -> bool {
        forall|k: int| 0 <= k < level ==> (#[trigger] self.levels@[k]).pending() == 0
    }

    /// Writes what is left on every level but the topmost, bottom up.
    fn drain<T: BuildTarget, D: Scratch>(&mut self, sink: &mut PageSink<T, D>) -> (r: Result<(), Error>)
        requires
            old(self).wf(old(sink)),
        ensures
            final(sink).dependable() == old(sink).dependable(),
            final(sink).filter() == old(sink).filter(),
            match r {
                Ok(_) => {
                    &&& TreeWriter::went_on(old(self), final(self), old(sink), final(sink))
                    &&& final(self).rows == old(self).rows
                    &&& final(self).row_keys == old(self).row_keys
                    &&& final(self).empty_below(final(self).levels@.len() - 1)
                    &&& sink::within(old(sink), final(sink), 4096)
                },
                Err(e) => old(self).write_failure(old(sink), e, 4096, old(self).steep()),
            },
    {
        let ghost was = *self;
        let ghost sink0 = *sink;
        let mut level: usize = 0;
        proof {
            lemma_grew_same(sink, self.start@);
            assert(self.placed@.subrange(0, self.placed@.len() as int) =~= self.placed@);
        }
        while level + 1 < self.levels.len()
            invariant
                TreeWriter::went_on(&was, self, &sink0, sink),
                self.rows == was.rows,
                self.row_keys == was.row_keys,
                level < self.levels@.len() <= MAX_LEVELS,
                self.empty_below(level as int),
                sink::within(&sink0, sink, 64 * level),
                was.fair() ==> self.narrow(if level == 0 {
                    1
                } else {
                    level as int
                }),
                sink.dependable() == sink0.dependable(),
                sink.filter() == sink0.filter(),
                sink0 == *old(sink),
                was == *old(self),
            decreases MAX_LEVELS - level,
        {
            let ghost before = *self;
            let ghost sink1 = *sink;
            proof {
                assert(self.level_ok(level as int, sink.pages(), sink.offsets()));
            }
            if self.levels[level].parts.len() > 0 {
                if level == 0 {
                    match self.rotate_leaf(sink) {
                        Ok(_) => {},
                        Err(e) => return Err(e),
                    }
                } else {
                    match self.rotate_above(sink, level) {
                        Ok(_) => {},
                        Err(e) => return Err(e),
                    }
                    proof {
                        assert forall|k: int| 0 <= k < level implies (
                        #[trigger] self.levels@[k]).pending() == 0 by {
                            assert(self.levels@[k] == before.levels@[k]);
                        }
                    }
                }
                proof {
                    TreeWriter::lemma_went_on(&was, &before, self, &sink0, &sink1, sink);
                }
            }
            level += 1;
        }
        Ok(())
    }

    /// Writes the page of a tree without rows.
    fn write_hollow<T: BuildTarget, D: Scratch>(&self, sink: &mut PageSink<T, D>) -> (r: Result<
        PageOrdinal,
        Error,
    >)
        requires
            self.wf(old(sink)),
        ensures
            final(sink).dependable() == old(sink).dependable(),
            final(sink).filter() == old(sink).filter(),
            match r {
                Ok(root) => {
                    &&& sink_grew(old(sink), final(sink), self.start@)
                    &&& root.get() < 0x8000_0000
                    &&& crate::encoding::lawful(&**self.encoding.inner) ==> model::holds_packed(
                        Seq::empty(),
                        self.encoding,
                        self.layout,
                        model::page_map(final(sink).pages()),
                        root,
                        self.page_size as int,
                    )
                    &&& sink::within(old(sink), final(sink), 1)
                },
                Err(e) => self.write_failure(old(sink), e, 1, false),
            },
    {
        let ghost before = *sink;
        let parts = PageParts::new();
        proof {
            reveal_with_fuel(crate::format::eytzinger::complete, 3);
            assert forall|slots: Seq<u64>|
                slots.len() == self.layout.slots(parts.entries@.len()) implies #[trigger] page::model_of(
                NodeKind::Leaf,
                self.layout,
                None,
                slots,
                parts,
            ).wf() by {
                let m = page::model_of(NodeKind::Leaf, self.layout, None, slots, parts);
                assert(page::payload(m.entries, 0).len() == 0);
            }
        }
        let (page, slots) = encode_page(NodeKind::Leaf, self.layout, None, &parts);
        let ghost m = page::model_of(NodeKind::Leaf, self.layout, None, slots@, parts);
        proof {
            m.lemma_decodes();
            m.lemma_areas();
        }
        let (ordinal, offset) = sink.write_page(page.as_slice())?;
        proof {
            assert(sink.pages() == before.pages().push(page@));
            assert(sink.offsets() == before.offsets().push(offset));
            self.lemma_page_added(&before, sink);
            let s = model::TreeShape {
                rows: Seq::empty(),
                levels: seq![seq![Node { ordinal, first: 0, count: 0 }]],
            };
            let map = model::page_map(sink.pages());
            assert(s.is_hollow());
            assert(node::page_digests(page@).len() == 0) by {
                assert(slots@.len() == 0);
            }
            if crate::encoding::lawful(&**self.encoding.inner) {
                assert forall|k: int, j: int|
                    0 <= k < s.levels.len() && 0 <= j < s.levels[k].len() implies #[trigger] model::node_ok(
                    s,
                    self.encoding,
                    self.layout,
                    map,
                    k,
                    j,
                ) by {
                    assert(map[ordinal] == page@);
                    assert(model::node_keys(s, k, j).len() == 0);
                }
                assert(model::tree_ok(s, self.encoding, self.layout, map, ordinal));
                assert(model::packed(s, self.layout, map, self.page_size as int));
            }
        }
        proof {
            sink.lemma_wf();
        }
        Ok(ordinal)
    }

    /// Writes everything that is left and the root. Returns the root page, and the rows
    /// whose page has been written since [`take_placed`](TreeWriter::take_placed) was last
    /// asked.
    pub fn finish<T: BuildTarget, D: Scratch>(self, sink: &mut PageSink<T, D>) -> (r: Result<
        (PageOrdinal, Vec<Placed>),
        Error,
    >)
        requires
            self.wf(old(sink)),
        ensures
            final(sink).dependable() == old(sink).dependable(),
            final(sink).filter() == old(sink).filter(),
            match r {
                Ok((root, placed)) => {
                    &&& sink_grew(old(sink), final(sink), self.first_page())
                    &&& root.get() < 0x8000_0000
                    &&& crate::encoding::lawful(&**self.key_encoding().inner) ==> self.held(
                        final(sink).pages(),
                        root,
                        placed@,
                    )
                    &&& self.waiting().len() <= placed@.len()
                    &&& placed@.subrange(0, self.waiting().len() as int) == self.waiting()
                    &&& placed@.len() - self.waiting().len() == self.rows().len()
                        - self.written_rows()
                    &&& all_placed(
                        placed@,
                        self.rows().len() as int,
                        self.rows(),
                        self.row_keys(),
                        final(sink).pages(),
                    )
                    &&& sink::within(old(sink), final(sink), FINISH_PAGES as int)
                },
                Err(e) => {
                    ||| e.kind() == ErrorKind::Io && !old(sink).dependable()
                    ||| e.kind() == ErrorKind::ValueTooLarge && old(sink).crowded(FINISH_PAGES as int)
                    ||| e.is_corrupt() && self.steep()
                },
            },
    {
        let mut w = self;
        match w.drain(sink) {
            Ok(_) => {},
            Err(e) => return Err(e),
        }
        let ghost drained = w;
        let ghost sink1 = *sink;
        proof {
            drained.lemma_placed_before(sink, sink);
            assert(w.level_ok(w.levels@.len() - 1, sink.pages(), sink.offsets()));
        }
        let top = w.levels.len() - 1;
        if w.levels[top].parts.len() == 0 {
            proof {
                drained.lemma_none_left(sink);
            }
            let root = match w.write_hollow(sink) {
                Ok(root) => root,
                Err(e) => return Err(e),
            };
            proof {
                drained.lemma_placed_before(&sink1, sink);
                lemma_grew_twice(old(sink), &sink1, sink, self.start@);
                assert(w.rows@ =~= Seq::<Row>::empty());
                if crate::encoding::lawful(&**self.encoding.inner) {
                    let s = choose|s: model::TreeShape|
                        s.rows == w.rows@ && s.levels.len() <= MAX_LEVELS && #[trigger] model::tree_ok(
                            s,
                            w.encoding,
                            w.layout,
                            model::page_map(sink.pages()),
                            root,
                        ) && model::packed(
                            s,
                            w.layout,
                            model::page_map(sink.pages()),
                            w.page_size as int,
                        );
                    assert forall|q: int, r: PageRef| #[trigger]
                        self.located(q, r) implies model::row_ref(
                        s,
                        model::page_map(sink.pages()),
                        q,
                        r,
                    ) by {
                        assert(drained.located(q, r));
                        drained.lemma_none_located(&sink1, q, r);
                    }
                    assert(self.tree_of(s, sink.pages(), root));
                    assert(refs_in(s, sink.pages(), w.placed@));
                    assert(self.held(sink.pages(), root, w.placed@));
                }
            }
            return Ok((root, w.placed));
        }
        let (root, separator, refs) = match w.write_level(sink, top) {
            Ok(done) => done,
            Err(e) => return Err(e),
        };
        let ghost done = w;
        proof {
            lemma_grew_twice(old(sink), &sink1, sink, self.start@);
            drained.lemma_placed_before(&sink1, sink);
            drained.lemma_finished(&done, &sink1, sink);
        }
        if top == 0 {
            w.place_rows(sink, &refs, Ghost(drained.written_rows()));
            proof {
                assert(w.placed@.subrange(0, self.placed@.len() as int)
                    =~= w.placed@.subrange(0, drained.placed@.len() as int).subrange(
                    0,
                    self.placed@.len() as int,
                ));
            }
        }
        proof {
            assert forall|i: int| 0 <= i < w.placed@.len() implies (
            #[trigger] w.placed@[i]).row@ == w.rows@.len() - w.placed@.len() + i && strings(
                w.placed@[i].keys@,
            ) == w.row_keys@[w.rows@.len() - w.placed@.len() + i] && level::refers_to(
                sink.pages(),
                w.placed@[i].reference,
                w.rows@[w.rows@.len() - w.placed@.len() + i].value,
            ) by {
                if top == 0 {
                    assert(w.placed_ok(w.placed@[i], sink.pages()));
                } else {
                    assert(drained.placed_ok(drained.placed@[i], sink.pages()));
                }
            }
            if crate::encoding::lawful(&**self.encoding.inner) {
                let s = shape::shape_of(done.levels@, done.rows@);
                assert forall|q: int, r: PageRef| #[trigger]
                    self.located(q, r) implies model::row_ref(
                    s,
                    model::page_map(sink.pages()),
                    q,
                    r,
                ) by {
                    assert(drained.located(q, r));
                    assert(done.located(q, r));
                }
                assert(self.tree_of(s, sink.pages(), root));
                assert forall|i: int| 0 <= i < w.placed@.len() implies model::row_ref(
                    s,
                    model::page_map(sink.pages()),
                    (#[trigger] w.placed@[i]).row@,
                    w.placed@[i].reference,
                ) by {
                    if top == 0 {
                        assert(w.placed_ok(w.placed@[i], sink.pages()));
                    } else {
                        assert(drained.placed_ok(drained.placed@[i], sink.pages()));
                    }
                    assert(done.located(w.placed@[i].row@, w.placed@[i].reference));
                }
                assert(refs_in(s, sink.pages(), w.placed@));
                assert(self.held(sink.pages(), root, w.placed@));
            }
        }
        Ok((root, w.placed))
    }

    /// Without rows, nothing is located.
    proof fn lemma_none_located<T: BuildTarget, D: Scratch>(&self, sink: &PageSink<T, D>, q: int, r: PageRef)
        requires
            self.wf(sink),
            self.rows@.len() == 0,
        ensures
            !self.located(q, r),
    {
        self.lemma_no_rows(sink, 0);
    }

    /// A tree whose levels have nothing left to write has no rows.
    proof fn lemma_none_left<T: BuildTarget, D: Scratch>(&self, sink: &PageSink<T, D>)
        requires
            self.wf(sink),
            self.empty_below(self.levels@.len() - 1),
            self.levels@.last().pending() == 0,
        ensures
            self.rows@.len() == 0,
            self.levels@[0].pending() == 0,
    {
        let top = self.levels@.len() - 1;
        assert(self.level_ok(top, sink.pages(), sink.offsets()));
        assert(self.levels@[top].fed@.len() == 0);
        self.lemma_nothing_fed(sink, top);
    }

    /// Where a level was fed nothing and the levels below have nothing left, no level was
    /// fed anything.
    proof fn lemma_nothing_fed<T: BuildTarget, D: Scratch>(&self, sink: &PageSink<T, D>, k: int)
        requires
            self.wf(sink),
            0 <= k < self.levels@.len(),
            self.empty_below(k),
            self.levels@[k].fed@.len() == 0,
        ensures
            self.levels@[0].fed@.len() == 0,
            self.levels@[0].pending() == 0,
        decreases k,
    {
        assert(self.level_ok(k, sink.pages(), sink.offsets()));
        level::lemma_written(&self.levels@[k], self.style(k), sink.pages(), sink.offsets());
        if k > 0 {
            assert(all_fed(self.levels@, k));
            assert(self.level_ok(k - 1, sink.pages(), sink.offsets()));
            assert(self.levels@[k - 1].pending() == 0);
            self.lemma_nothing_fed(sink, k - 1);
        }
    }

    /// Once the topmost level has written its page, the pages hold a tree of the rows.
    proof fn lemma_finished<T: BuildTarget, D: Scratch>(
        &self,
        done: &TreeWriter,
        a: &PageSink<T, D>,
        b: &PageSink<T, D>,
    )
        requires
            self.wf(a),
            self.empty_below(self.levels@.len() - 1),
            self.levels@.last().pending() > 0,
            done.written_ok(b, self.levels@.len() - 1),
            done.same_but_levels(self),
            done.levels@.len() == self.levels@.len(),
            forall|i: int|
                0 <= i < self.levels@.len() - 1 ==> #[trigger] done.levels@[i] == self.levels@[i],
            done.levels@.last().pending() == 0,
            done.levels@.last().fed@ == self.levels@.last().fed@,
        ensures
            crate::encoding::lawful(&**self.encoding.inner) ==> done.tree_of(
                shape::shape_of(done.levels@, done.rows@),
                b.pages(),
                done.levels@.last().done@.last().node.ordinal,
            ),
    {
        let levels = done.levels@;
        let top = levels.len() - 1;
        assert forall|k: int| 0 <= k < levels.len() implies #[trigger] shape::level_done(
            levels,
            done.layout,
            done.encoding,
            b.pages(),
            b.offsets(),
            k,
        ) by {
            assert(done.level_ok(k, b.pages(), b.offsets()));
            if k < top {
                assert(levels[k] == self.levels@[k]);
            }
        }
        assert forall|k: int| 1 <= k < levels.len() implies #[trigger] all_fed(levels, k) by {
            assert(all_fed(self.levels@, k));
            assert(levels[k - 1] == self.levels@[k - 1]);
            if k < top {
                assert(levels[k] == self.levels@[k]);
            }
        }
        assert(self.rows@.len() > 0) by {
            if self.rows@.len() == 0 {
                self.lemma_no_rows(a, top);
            }
        }
        if crate::encoding::lawful(&**self.encoding.inner) {
            lemma_chained_sorted(self.encoding, self.rows@);
            shape::lemma_tree(
                levels,
                done.rows@,
                done.layout,
                done.encoding,
                b.pages(),
                b.offsets(),
            );
            assert(done.level_ok(0, b.pages(), b.offsets()));
            shape::lemma_packed(
                levels,
                done.rows@,
                done.layout,
                done.encoding,
                b.pages(),
                b.offsets(),
                done.page_size as int,
            );
            let s = shape::shape_of(levels, done.rows@);
            assert forall|q: int, r: PageRef| #[trigger] done.located(q, r) implies model::row_ref(
                s,
                model::page_map(b.pages()),
                q,
                r,
            ) by {
                shape::lemma_located(
                    levels,
                    done.rows@,
                    done.layout,
                    done.encoding,
                    b.pages(),
                    b.offsets(),
                    q,
                    r,
                );
            }
        }
    }

    /// Without rows, no level was fed anything.
    proof fn lemma_no_rows<T: BuildTarget, D: Scratch>(&self, sink: &PageSink<T, D>, k: int)
        requires
            self.wf(sink),
            0 <= k < self.levels@.len(),
            self.rows@.len() == 0,
        ensures
            self.levels@[k].fed@.len() == 0,
            self.levels@[k].done@.len() == 0,
            self.levels@[k].pending() == 0,
        decreases k,
    {
        if k > 0 {
            self.lemma_no_rows(sink, k - 1);
            assert(all_fed(self.levels@, k));
        }
        assert(self.level_ok(k, sink.pages(), sink.offsets()));
        level::lemma_written(&self.levels@[k], self.style(k), sink.pages(), sink.offsets());
    }
}

} // verus!

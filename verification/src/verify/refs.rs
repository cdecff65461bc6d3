//! Checking the values of leaf entries: overflow pages and references into a primary tree.

use std::sync::Arc;

use vstd::prelude::*;

use super::chain::walk_page;
use super::report::Reporter;
use super::sound;
use crate::btree::{paths, within, Tree};
use crate::budget::{self, Charge, BUFFER_OVERHEAD};
use crate::encoding::{KeyEncoding, SharedEncoding};
use crate::error::{Error, Words};
use crate::format::node::{self, LeafValue, NodeKind, NodeLayout, PageView};
use crate::format::pageref::{self, PageRef};
use crate::format::{PageLocalOffset, PageOrdinal, PAGE_PREFIX_LEN};
use crate::model::{self, Pages, TreeShape};
use crate::page::PagePin;
use crate::query::range::copied;
use crate::store::PageStore;

verus! {

broadcast use crate::format::group_format;

/// Whether a bit of a word is set.
pub open spec fn bit(word: u64, k: u64) -> bool {
    word & (1u64 << k) != 0
}

/// Setting a bit sets that bit.
proof fn lemma_set_bit(word: u64, k: u64, j: u64)
    requires
        k < 64,
        j < 64,
    ensures
        bit(word | (1u64 << k), j) == (bit(word, j) || j == k),
{
    assert(((word | (1u64 << k)) & (1u64 << j) != 0) == ((word & (1u64 << j) != 0) || j == k))
        by (bit_vector)
        requires
            k < 64,
            j < 64,
    ;
}

/// No bit of zero is set.
proof fn lemma_no_bit(j: u64)
    requires
        j < 64,
    ensures
        !bit(0, j),
{
    assert(0u64 & (1u64 << j) == 0) by (bit_vector);
}

/// The pages a primary tree keeps its overflowed values on.
///
/// A blob page says nothing about which tree it belongs to, so an index reference into
/// one can only be tied back to its table by remembering which pages that table used. A
/// bit per page of the file, reserved like everything else: a pass that cannot afford it
/// says so rather than skipping the check and calling the file sound.
pub struct OverflowPages {
    bits: Vec<u64>,
    charge: Charge,
    /// The tree of the table.
    home: Ghost<Tree>,
}

/// What a bit for each of so many pages costs.
pub open spec fn bits_cost(pages: int) -> u64 {
    ((pages / 64 + 1) * 8 + BUFFER_OVERHEAD) as u64
}

impl OverflowPages {
    /// Whether a page is one of them.
    pub closed spec fn has(&self, page: PageOrdinal) -> bool {
        let i = page.get() as int;
        i / 64 < self.bits@.len() && bit(self.bits@[i / 64], (i % 64) as u64)
    }

    /// The tree of the table that the pages hold values of.
    pub closed spec fn home(&self) -> Tree {
        self.home@
    }

    /// The reservation that pays for the bits.
    pub closed spec fn spec_charge(&self) -> Charge {
        self.charge
    }

    /// How many pages there is a place for.
    pub closed spec fn room(&self) -> int {
        64 * self.bits@.len() as int
    }

    /// None of the pages of a file.
    pub fn new(store: &Arc<PageStore>, Ghost(home): Ghost<Tree>) -> (r: Result<
        OverflowPages,
        Error,
    >)
        ensures
            match r {
                Ok(o) => {
                    &&& o.home() == home
                    &&& forall|page: PageOrdinal| !#[trigger] o.has(page)
                    &&& o.room() >= store.file().section.count
                    &&& o.spec_charge().owner() == store.spec_budget()
                    &&& o.spec_charge().spec_bytes() == bits_cost(store.file().section.count as int)
                },
                Err(e) => store.lacks(bits_cost(store.file().section.count as int), e),
            },
    {
        let words = store.page_count() / 64 + 1;
        let charge = match store.reserve(words * 8 + BUFFER_OVERHEAD) {
            Ok(charge) => charge,
            Err(e) => return Err(e),
        };
        let mut bits: Vec<u64> = Vec::new();
        let mut i: u64 = 0;
        while i < words
            invariant
                i <= words,
                bits@.len() == i,
                forall|j: int| 0 <= j < i ==> #[trigger] bits@[j] == 0,
            decreases words - i,
        {
            bits.push(0);
            i += 1;
        }
        let r = OverflowPages { bits, charge, home: Ghost(home) };
        proof {
            assert forall|page: PageOrdinal| !#[trigger] r.has(page) by {
                lemma_no_bit((page.get() as int % 64) as u64);
            }
        }
        Ok(r)
    }

    /// Remembers a page.
    pub fn insert(&mut self, page: PageOrdinal)
        ensures
            final(self).room() == old(self).room(),
            final(self).spec_charge() == old(self).spec_charge(),
            final(self).home() == old(self).home(),
            forall|o: PageOrdinal|
                #[trigger] final(self).has(o) == (old(self).has(o) || o == page && page.get()
                    < old(self).room()),
    {
        let index = page.get();
        let ghost was = self.bits@;
        let at = index / 64;
        let k = index % 64;
        if at < self.bits.len() as u64 {
            let at = at as usize;
            let word = self.bits[at] | (1u64 << k);
            self.bits.set(at, word);
            proof {
                assert forall|o: PageOrdinal|
                    #[trigger] self.has(o) == (old(self).has(o) || o == page && page.get()
                        < old(self).room()) by {
                    let i = o.get() as int;
                    if i / 64 == at {
                        lemma_set_bit(was[at as int], k, (i % 64) as u64);
                        if i % 64 == k {
                            assert(i == index);
                            assert(PageOrdinal::spec_new(o.get()) == o);
                            assert(PageOrdinal::spec_new(page.get()) == page);
                        }
                    }
                }
            }
        }
    }

    /// Whether a page is one of them.
    pub fn contains(&self, page: PageOrdinal) -> (r: bool)
        ensures
            r == self.has(page),
    {
        let index = page.get();
        let at = index / 64;
        if at < self.bits.len() as u64 {
            let k = index % 64;
            self.bits[at as usize] & (1u64 << k) != 0
        } else {
            false
        }
    }
}

/// Checks that an overflow value points at a blob page of this file.
///
/// The leaf holds only the page number, so a reference that survives the structural
/// checks can still name a page that is not a blob, or no page at all. A search that
/// reaches it fails, which makes it exactly the kind of thing this pass is for.
pub fn check_overflow_value(
    tree: &Tree,
    page: PageOrdinal,
    entry: usize,
    ordinal: PageOrdinal,
    reporter: &mut Reporter,
)
    requires
        old(reporter).paid(),
        old(reporter).covers(tree),
    ensures
        Reporter::grew(old(reporter), final(reporter)),
        Reporter::same_counts(old(reporter), final(reporter)),
        ({
            let pages = tree.spec_store().pages();
            let count = tree.spec_store().file().section.count;
            &&& Reporter::quiet(old(reporter), final(reporter)) ==> sound::is_blob(
                pages,
                count,
                page,
            )
            &&& sound::is_blob(pages, count, page) && tree.spec_store().steady()
                ==> Reporter::calm(old(reporter), final(reporter))
        }),
{
    proof {
        Reporter::lemma_same(reporter);
    }
    let page_count = tree.store().page_count();
    if page.get() >= page_count {
        reporter.problem_words(
            ordinal,
            Words::new("entry ")
                .number(entry as u64)
                .say(" stores its value on page ")
                .number(page.get())
                .say(" but the file has ")
                .number(page_count)
                .say(" pages"),
        );
        return;
    }
    let pin = match tree.raw_page(page) {
        Ok(pin) => pin,
        Err(e) => {
            reporter.failed_with(
                Some(
                    ordinal.get(
                        )),
                        Words::new("entry ")
                            .number(entry as u64)
                            .say(": value page ")
                            .number(page.get()), e);
            return;
        },
    };
    match pin.parsed() {
        Ok(view) => {
            let is_leaf = match view.kind() {
                NodeKind::Leaf => true,
                NodeKind::Internal => false,
            };
            if !(is_leaf && view.entry_count() == 0) {
                reporter.problem_words(
                    ordinal,
                    Words::new("entry ")
                        .number(entry as u64)
                        .say(" stores its value on page ")
                        .number(page.get())
                        .say(", which is a tree page rather than a blob page"),
                );
            }
        },
        Err(e) => {
            proof {
                tree.spec_store().lemma_pages_sound(page);
            }
            reporter.failed_with(
                Some(
                    ordinal.get(
                        )),
                        Words::new("entry ")
                            .number(entry as u64)
                            .say(": value page ")
                            .number(page.get()), e);
        },
    }
}

/// Whether an entry's value is this range of its page.
pub open spec fn inline_at(p: Seq<u8>, i: int, start: int, len: int) -> bool {
    node::leaf_entry_at(p, i) matches Some(entry) && (entry.value matches LeafValue::Inline {
        offset,
        len: n,
    } && offset == start && n == len)
}

/// Whether the bytes in an index entry's value position refer to a value that is really
/// there: all of a blob page of the table, or the value of an entry of a leaf.
pub open spec fn reference_ok(pages: Pages, overflow: &OverflowPages, raw: Seq<u8>) -> bool {
    pageref::page_ref_at(raw) matches Some(r) && {
        let p = pages[r.page];
        &&& pages.contains_key(r.page)
        &&& r.fits(p.len() as int)
        &&& if node::page_count(p) == 0 {
            &&& overflow.has(r.page)
            &&& r.start.get() == PAGE_PREFIX_LEN
            &&& r.start.get() + r.length == p.len()
        } else {
            &&& node::page_kind(p) == NodeKind::Leaf
            &&& exists|i: int|
                0 <= i < node::page_count(p) && #[trigger] inline_at(
                    p,
                    i,
                    r.start.get() as int,
                    r.length as int,
                )
        }
    }
}

/// Whether the bytes in an index entry's value position, where they refer into a leaf, refer to
/// the value of a row of the table, in whatever shape its tree holds its rows.
pub open spec fn reference_home(primary: &Tree, raw: Seq<u8>) -> bool {
    let pages = primary.spec_store().pages();
    pageref::page_ref_at(raw) matches Some(r) && (node::page_count(pages[r.page]) > 0 ==> forall|
        s: TreeShape,
        layout: NodeLayout,
    | #[trigger]
        primary.holds(s, layout) ==> exists|x: int| #[trigger] model::row_ref(s, pages, x, r))
}

/// A key copied out of a page, with the reservation that paid for it.
struct ChargedKey {
    key: Vec<u8>,
    charge: Charge,
}

/// The key of one entry on a page of the primary tree, rebuilt when the page omits it.
///
/// The reservation comes back with the key, because the caller keeps the key and looks
/// it up, which reads more pages while it is still held.
fn target_key(primary: &Tree, view: &PageView<'_>, index: usize) -> (r: Result<ChargedKey, Error>)
    requires
        node::entries_ok(view.page()),
        node::page_kind(view.page()) == NodeKind::Leaf,
        index < node::page_count(view.page()),
    ensures
        match r {
            Ok(k) => sound::leaf_key(primary.spec_encoding(), view.page(), index as int) == Some(
                k.key@,
            ),
            Err(e) => {
                ||| primary.key_denied_on(view.page(), index as int, e)
                ||| !e.is_resource() && node::page_layout(view.page()).omitted_keys && (
                primary.spec_encoding().inner.rebuilt_len() is None || sound::leaf_key(
                    primary.spec_encoding(),
                    view.page(),
                    index as int,
                ) is None)
            },
        },
{
    if !view.layout().omitted_keys {
        let key = match within::entry_key(view, index) {
            Ok(key) => key,
            Err(e) => {
                proof {
                    assert(false);
                }
                return Err(e);
            },
        };
        let charge = match primary.store().reserve(
            (key.len() as u64).saturating_add(BUFFER_OVERHEAD),
        ) {
            Ok(charge) => charge,
            Err(e) => {
                proof {
                    primary.spec_store().lemma_short(budget::capped(key@.len() + BUFFER_OVERHEAD), e);
                }
                return Err(e);
            },
        };
        return Ok(ChargedKey { key: copied(key), charge });
    }
    let capacity = match primary.rebuilt_key_capacity() {
        Ok(capacity) => capacity,
        Err(e) => return Err(e),
    };
    let charge = match primary.store().reserve((capacity as u64).saturating_add(BUFFER_OVERHEAD)) {
        Ok(charge) => charge,
        Err(e) => {
            proof {
                primary.spec_store().lemma_short(budget::capped(capacity + BUFFER_OVERHEAD), e);
            }
            return Err(e);
        },
    };
    let mut buf: Vec<u8> = Vec::new();
    match primary.rebuild_key(view, index, &mut buf) {
        Ok(_) => Ok(ChargedKey { key: buf, charge }),
        Err(e) => Err(e),
    }
}

/// A row is one entry.
proof fn lemma_one_entry(
    s: TreeShape,
    a: PageOrdinal,
    i: int,
    b: PageOrdinal,
    j: int,
    r: int,
)
    requires
        s.is_tree(),
        !s.is_hollow(),
        paths::entry_is_row(s, a, i, r),
        paths::entry_is_row(s, b, j, r),
    ensures
        a == b,
        i == j,
{
    let x = choose|x: int|
        #[trigger] paths::leaf_at(s, a, x) && 0 <= i < s.levels[0][x].count && r
            == s.levels[0][x].first + i;
    let y = choose|y: int|
        #[trigger] paths::leaf_at(s, b, y) && 0 <= j < s.levels[0][y].count && r
            == s.levels[0][y].first + j;
    assert(s.tiled(0));
    if x < y {
        model::lemma_tiles_ascend(s, 0, x, y);
    } else if y < x {
        model::lemma_tiles_ascend(s, 0, y, x);
    }
}

/// Looking up the key of an entry of a held tree finds the entry.
proof fn lemma_finds_itself(
    primary: &Tree,
    s: TreeShape,
    layout: NodeLayout,
    o: PageOrdinal,
    j: int,
    i: int,
    key: Seq<u8>,
    found: Option<(PagePin, usize)>,
)
    requires
        primary.holds(s, layout),
        paths::leaf_at(s, o, j),
        0 <= i < node::page_count(primary.spec_store().pages()[o]),
        sound::leaf_key(
            primary.spec_encoding(),
            primary.spec_store().pages()[o],
            i,
        ) == Some(key),
        crate::btree::search_result(primary, key, within::SearchOp::Equal, found),
    ensures
        found is Some,
        found->Some_0.0.spec_ordinal() == o,
        found->Some_0.1 == i,
{
    let e = primary.spec_encoding();
    let pages = primary.spec_store().pages();
    let root = primary.spec_root()->Some_0;
    lemma_row_key(s, e, layout, pages, root, j, i);
    let r = s.levels[0][j].first + i;
    assert(s.rows[r].key == key);
    assert(e.inner.accepts(s.rows[r].key));
    assert(e.inner.sign(key, key) == 0);
    assert(paths::entry_is_row(s, o, i, r)) by {
        assert(paths::leaf_at(s, o, j));
    }
    match found {
        Some((pin, at)) => {
            let q = choose|q: int|
                #[trigger] paths::entry_is_row(s, pin.spec_ordinal(), at as int, q)
                    && paths::is_row(s, e, key, within::SearchOp::Equal, q);
            assert(q == r) by {
                if q < r {
                    assert(e.inner.sign(s.rows[q].key, s.rows[r].key) < 0);
                } else if r < q {
                    assert(e.inner.sign(s.rows[r].key, s.rows[q].key) < 0);
                    assert(e.inner.accepts(s.rows[q].key));
                    assert(e.inner.sign(s.rows[q].key, s.rows[r].key) > 0);
                }
            }
            lemma_one_entry(s, o, i, pin.spec_ordinal(), at as int, r);
        },
        None => {
            assert(paths::no_row(s, e, key, within::SearchOp::Equal));
        },
    }
}

/// The key of an entry of a held tree is the key of its row.
pub proof fn lemma_row_key(
    s: TreeShape,
    e: SharedEncoding,
    layout: NodeLayout,
    pages: Pages,
    root: PageOrdinal,
    j: int,
    i: int,
)
    requires
        model::tree_ok(s, e, layout, pages, root),
        0 <= j < s.levels[0].len(),
        0 <= i < node::page_count(pages[s.levels[0][j].ordinal]),
    ensures
        0 <= s.levels[0][j].first,
        s.levels[0][j].first + i < s.rows.len(),
        i < s.levels[0][j].count,
        !s.is_hollow(),
        sound::leaf_key(e, pages[s.levels[0][j].ordinal], i) == Some(
            s.rows[s.levels[0][j].first + i].key,
        ),
        node::page_layout(pages[s.levels[0][j].ordinal]) == layout,
        layout.omitted_keys ==> e.inner.exact() && e.inner.rebuilt_len() is Some,
{
    paths::lemma_node_ordered(s, e, layout, pages, root, 0, j);
    assert(model::node_ok(s, e, layout, pages, 0, j));
    let keys = model::node_keys(s, 0, j);
    let p = pages[s.levels[0][j].ordinal];
    assert(keys[i] == s.rows[s.levels[0][j].first + i].key);
    assert(node::page_digests(p)[i] == e.inner.digest_of(keys[i]));
    assert(e.inner.accepts(keys[i]));
}

/// Whether a reference is one that a check against a held primary tree passes: it is sound,
/// and where it refers into a leaf, the leaf is one of the tree.
pub open spec fn reference_held(
    primary: &Tree,
    s: TreeShape,
    overflow: &OverflowPages,
    raw: Seq<u8>,
) -> bool {
    let pages = primary.spec_store().pages();
    &&& reference_ok(pages, overflow, raw)
    &&& pageref::page_ref_at(raw) matches Some(r) && (node::page_count(pages[r.page]) > 0
        ==> exists|j: int| #[trigger] paths::leaf_at(s, r.page, j))
}

/// A record that the key of an entry leads to, in the position that a reference names, is the row
/// that the reference refers to.
proof fn lemma_home(
    primary: &Tree,
    key: Seq<u8>,
    found: PagePin,
    at: usize,
    r: PageRef,
)
    requires
        crate::btree::search_result(primary, key, within::SearchOp::Equal, Some((found, at))),
        found.spec_ordinal() == r.page,
        inline_at(found@, at as int, r.start.get() as int, r.length as int),
    ensures
        forall|s: TreeShape, layout: NodeLayout| #[trigger]
            primary.holds(s, layout) ==> exists|x: int| #[trigger]
                model::row_ref(s, primary.spec_store().pages(), x, r),
{
    let pages = primary.spec_store().pages();
    let o = r.page;
    assert forall|s: TreeShape, layout: NodeLayout| #[trigger]
        primary.holds(s, layout) implies exists|x: int| #[trigger] model::row_ref(s, pages, x, r) by {
        let e = primary.spec_encoding();
        let x = choose|x: int| #[trigger]
            paths::entry_is_row(s, o, at as int, x) && paths::is_row(
                s,
                e,
                key,
                within::SearchOp::Equal,
                x,
            );
        let j = choose|j: int|
            #[trigger] paths::leaf_at(s, o, j) && 0 <= at < s.levels[0][j].count && x
                == s.levels[0][j].first + at;
        assert(model::entry_ref(pages, o, at as int) == Some(r)) by {
            assert(PageLocalOffset::spec_new(r.start.get() as u32) == r.start);
        }
        assert(model::ref_at(s, pages, x, r, j));
        assert(model::row_ref(s, pages, x, r));
    }
}

/// Checks that a secondary index entry points at a value that is really there.
///
/// The read path only checks that the range fits in the page and does not start in its
/// header, because finding the record it belongs to costs a scan of the target page.
/// Here that scan is affordable, and it is what tells a reference that lands on a record
/// from one that lands on the metadata between records and hands those bytes back as a
/// value.
///
/// `primary` is the tree the reference is supposed to point into. A reference that lands
/// on a value of some other tree, its own index included, is as wrong as one that lands
/// between records: the bytes it hands back are not a record.
pub fn check_page_ref(
    tree: &Tree,
    primary: &Tree,
    overflow: &OverflowPages,
    value: &[u8],
    entry: usize,
    ordinal: PageOrdinal,
    reporter: &mut Reporter,
    Ghost(held): Ghost<Option<(TreeShape, NodeLayout)>>,
)
    requires
        old(reporter).paid(),
        old(reporter).covers(tree),
        old(reporter).covers(primary),
        primary.spec_store() == tree.spec_store(),
        held matches Some((s, layout)) ==> primary.holds(s, layout)
            && tree.spec_store().steady() && primary.spec_store() == tree.spec_store()
            && reference_held(primary, s, overflow, value@),
    ensures
        Reporter::grew(old(reporter), final(reporter)),
        Reporter::same_counts(old(reporter), final(reporter)),
        Reporter::quiet(old(reporter), final(reporter)) ==> reference_ok(
            tree.spec_store().pages(),
            overflow,
            value@,
        ) && reference_home(primary, value@),
        held is Some ==> Reporter::calm(old(reporter), final(reporter)),
{
    let ghost pages = tree.spec_store().pages();
    let ghost r0 = *reporter;
    proof {
        Reporter::lemma_same(reporter);
    }
    let reference = match PageRef::parse(value) {
        Ok(reference) => reference,
        Err(e) => {
            reporter.failed_with(Some(ordinal.get()), Words::new("entry ").number(entry as u64), e);
            return;
        },
    };
    let pin = match walk_page(tree, reference.page, reporter) {
        Some(pin) => pin,
        None => return,
    };
    proof {
        tree.spec_store().lemma_pages_sound(reference.page);
    }
    let ghost p = pages[reference.page];
    let range = match reference.range(pin.len()) {
        Ok(range) => range,
        Err(e) => {
            reporter.failed_with(Some(ordinal.get()), Words::new("entry ").number(entry as u64), e);
            return;
        },
    };
    let view = match pin.parsed() {
        Ok(view) => view,
        Err(e) => {
            reporter.failed(Some(reference.page.get()), e);
            return;
        },
    };
    if view.entry_count() == 0 {
        // A blob page: the value is the whole payload, and it has to be one of this
        // table's. Nothing on the page says whose it is, so the primary walk recorded
        // them.
        if !overflow.contains(reference.page) {
            reporter.problem_words(
                ordinal,
                Words::new("entry ")
                    .number(entry as u64)
                    .say(" points at page ")
                    .number(reference.page.get())
                    .say(", which holds no value of this table"),
            );
            return;
        }
        if range.start != PAGE_PREFIX_LEN || range.end != pin.len() {
            reporter.problem_words(
                ordinal,
                Words::new("entry ")
                    .number(entry as u64)
                    .say(" points at ")
                    .number(range.start as u64)
                    .say("..")
                    .number(range.end as u64)
                    .say(" of blob page ")
                    .number(reference.page.get())
                    .say(", which holds ")
                    .number(PAGE_PREFIX_LEN as u64)
                    .say("..")
                    .number(pin.len() as u64),
            );
        }
        return;
    }
    let start = range.start;
    let len = range.end - range.start;
    let count = view.entry_count();
    let mut i: usize = 0;
    while i < count
        invariant
            i <= count,
            count == node::page_count(p),
            pages == tree.spec_store().pages(),
            r0 == *old(reporter),
            *reporter == r0,
            r0.paid(),
            Reporter::grew(&r0, reporter),
            reporter.covers(tree),
            reporter.covers(primary),
            pageref::page_ref_at(value@) == Some(reference),
            pages.contains_key(reference.page),
            p == pages[reference.page],
            view.page() == p,
            node::entries_ok(p),
            reference.fits(p.len() as int),
            start == reference.start.get(),
            len == reference.length,
            count > 0,
            primary.spec_store() == tree.spec_store(),
            held matches Some((s, layout)) ==> {
                &&& primary.holds(s, layout)
                &&& tree.spec_store().steady()
                &&& primary.spec_store() == tree.spec_store()
                &&& reference_held(primary, s, overflow, value@)
                &&& node::page_kind(p) == NodeKind::Leaf
                &&& forall|c: int| 0 <= c < i ==> !#[trigger] inline_at(p, c, start as int, len as int)
            },
        decreases count - i,
    {
        let target = match view.leaf_entry(i) {
            Ok(target) => target,
            Err(e) => {
                proof {
                    if held is Some {
                        assert(node::entry_ok(p, i as int));
                    }
                }
                reporter.failed_with(
                    Some(
                        reference.page.get(
                            )),
                            Words::new("entry ")
                                .number(i as u64), e);
                return;
            },
        };
        let here = match target.value {
            LeafValue::Inline { offset, len: n } => offset == start && n == len,
            LeafValue::Overflow { .. } => false,
        };
        if here {
            proof {
                assert(inline_at(p, i as int, start as int, len as int));
                assert(reference_ok(pages, overflow, value@));
                if let Some((s, layout)) = held {
                    let j = choose|j: int| #[trigger] paths::leaf_at(s, reference.page, j);
                    lemma_row_key(
                        s,
                        primary.spec_encoding(),
                        layout,
                        pages,
                        primary.spec_root()->Some_0,
                        j,
                        i as int,
                    );
                }
            }
            // The range is some entry's value. Whose, though: looking the key up in the
            // primary tree says whether this page belongs to it and whether the record it
            // would find is the one the reference names.
            let key = match target_key(primary, &view, i) {
                Ok(key) => key,
                Err(e) => {
                    proof {
                        if e.is_resource() {
                            primary.lemma_key_denied(reference.page, i as int, e);
                        }
                    }
                    reporter.failed_with(
                        Some(
                            reference.page.get(
                                )),
                                Words::new("entry ")
                                    .number(i as u64), e);
                    return;
                },
            };
            let looked = primary.find(key.key.as_slice());
            proof {
                if let Some((s, layout)) = held {
                    let j = choose|j: int| #[trigger] paths::leaf_at(s, reference.page, j);
                    let r = s.levels[0][j].first + i;
                    assert(primary.spec_encoding().inner.accepts(s.rows[r].key));
                    if looked is Ok {
                        lemma_finds_itself(
                            primary,
                            s,
                            layout,
                            reference.page,
                            j,
                            i as int,
                            key.key@,
                            looked->Ok_0,
                        );
                    }
                }
            }
            match looked {
                Ok(Some((found, at))) => {
                    if found.ordinal().get() == reference.page.get() {
                        match found.parsed() {
                            Ok(there) => match there.leaf_entry(at) {
                                Ok(record) => match record.value {
                                    LeafValue::Inline { offset, len: n } => {
                                        if offset == start && n == len {
                                            proof {
                                                lemma_home(primary, key.key@, found, at, reference);
                                                assert(reference_home(primary, value@));
                                            }
                                            return;
                                        }
                                    },
                                    LeafValue::Overflow { .. } => {},
                                },
                                Err(e) => {
                                    reporter.failed(Some(reference.page.get()), e);
                                    return;
                                },
                            },
                            Err(e) => {
                                reporter.failed(Some(reference.page.get()), e);
                                return;
                            },
                        }
                    }
                },
                Ok(None) => {},
                Err(e) => {
                    reporter.failed_with(
                        Some(
                            ordinal.get(
                                )),
                                Words::new("entry ")
                                    .number(entry as u64), e);
                    return;
                },
            }
            reporter.problem_words(
                ordinal,
                Words::new("entry ")
                    .number(entry as u64)
                    .say(" points at ")
                    .number(range.start as u64)
                    .say("..")
                    .number(range.end as u64)
                    .say(" of page ")
                    .number(reference.page.get())
                    .say(", which is not the value of any record on it"),
            );
            return;
        }
        i += 1;
    }
    reporter.problem_words(
        ordinal,
        Words::new("entry ")
            .number(entry as u64)
            .say(" points at ")
            .number(range.start as u64)
            .say("..")
            .number(range.end as u64)
            .say(" of page ")
            .number(reference.page.get())
            .say(", which is not the value of any record on it"),
    );
}

} // verus!

//! Walking the leaves of a tree.


use vstd::prelude::*;

use super::chain::{self, check_page_digests, walk_page};
use super::levels::{self, same_ordinal, verify_internal_levels, Previous};
use super::refs::{self, check_overflow_value, check_page_ref, OverflowPages};
use super::report::Reporter;
use super::sound::{self, Place};
use crate::btree::{paths, within, Tree};
use crate::budget::{self, Charge};
use crate::encoding::{self, KeyEncoding, KeyOrder, SharedEncoding};
use crate::error::{Error, Words};
use crate::format::node::{self, LeafEntry, LeafValue, NodeKind, NodeLayout, PageView};
use crate::format::PageOrdinal;
use crate::model::{self, Pages, TreeShape};
use crate::query::cursor::charge_at_least;

verus! {

broadcast use crate::format::group_format;

/// The blob page of a leaf entry, when its value is on one.
pub open spec fn overflow_of(pages: Pages, o: PageOrdinal, i: int) -> Option<PageOrdinal> {
    match node::leaf_entry_at(pages[o], i) {
        Some(entry) => match entry.value {
            LeafValue::Overflow { page } => Some(page),
            LeafValue::Inline { .. } => None,
        },
        None => None,
    }
}

/// Whether a page, if there is one, was added to what is remembered, and nothing else.
pub open spec fn added(
    a: Option<OverflowPages>,
    b: Option<OverflowPages>,
    page: Option<PageOrdinal>,
) -> bool {
    match (a, b) {
        (Some(x), Some(y)) => {
            &&& y.room() == x.room()
            &&& y.home() == x.home()
            &&& forall|o: PageOrdinal|
                #[trigger] y.has(o) == (x.has(o) || page == Some(o) && o.get() < x.room())
        },
        (None, None) => true,
        _ => false,
    }
}

/// Whether what is in the value position of an entry is sound: on its page or on a blob page
/// of the file, and, in an index, a reference to a value of the table.
pub open spec fn value_sound(
    pages: Pages,
    count: int,
    o: PageOrdinal,
    i: int,
    reference: bool,
    overflow: Option<OverflowPages>,
) -> bool {
    &&& overflow_of(pages, o, i) matches Some(page) ==> sound::is_blob(pages, count, page)
    &&& reference ==> overflow is Some && refs::reference_ok(
        pages,
        &overflow->Some_0,
        sound::entry_bytes(pages, o, i),
    ) && refs::reference_home(&overflow->Some_0.home(), sound::entry_bytes(pages, o, i))
}

/// Whether what is remembered is still of the same table, if anything is remembered.
pub open spec fn same_home(a: Option<OverflowPages>, b: Option<OverflowPages>) -> bool {
    match (a, b) {
        (Some(x), Some(y)) => x.home() == y.home(),
        (None, None) => true,
        _ => false,
    }
}

/// Whether the pages remembered, in an index, are those of the table that references lead into.
pub open spec fn refers_home(
    primary: Option<&Tree>,
    tree: &Tree,
    overflow: Option<OverflowPages>,
) -> bool {
    primary matches Some(t) ==> (overflow matches Some(set) && set.home() == *t && t.spec_store()
        == tree.spec_store())
}

/// What is known of a primary tree that references lead into.
pub type Target = Option<(TreeShape, NodeLayout)>;

/// Whether a value is one that a check passes, when the trees are known to be held.
pub open spec fn value_held(
    tree: &Tree,
    primary: Option<&Tree>,
    overflow: Option<OverflowPages>,
    o: PageOrdinal,
    i: int,
    target: Target,
) -> bool {
    let pages = tree.spec_store().pages();
    let count = tree.spec_store().file().section.count;
    &&& tree.spec_store().steady()
    &&& overflow_of(pages, o, i) matches Some(page) ==> sound::is_blob(pages, count, page)
    &&& primary matches Some(t) ==> {
        &&& target is Some
        &&& overflow is Some
        &&& t.holds(target->Some_0.0, target->Some_0.1)
        &&& t.spec_store() == tree.spec_store()
        &&& refs::reference_held(
            t,
            target->Some_0.0,
            &overflow->Some_0,
            sound::entry_bytes(pages, o, i),
        )
    }
}

/// Checks what is in the value position of a leaf entry.
fn check_value(
    tree: &Tree,
    view: &PageView<'_>,
    entry: &LeafEntry,
    i: usize,
    ordinal: PageOrdinal,
    primary: Option<&Tree>,
    overflow: &mut Option<OverflowPages>,
    reporter: &mut Reporter,
    Ghost(target): Ghost<Target>,
    Ghost(held): Ghost<bool>,
)
    requires
        old(reporter).paid(),
        old(reporter).covers(tree),
        primary matches Some(t) ==> old(reporter).covers(t),
        tree.spec_store().pages().contains_key(ordinal),
        tree.spec_store().pages()[ordinal] == view.page(),
        node::leaf_entry_at(view.page(), i as int) == Some(*entry),
        held ==> value_held(tree, primary, *old(overflow), ordinal, i as int, target),
        refers_home(primary, tree, *old(overflow)),
    ensures
        Reporter::grew(old(reporter), final(reporter)),
        Reporter::same_counts(old(reporter), final(reporter)),
        primary is Some ==> *final(overflow) == *old(overflow),
        primary is None ==> added(
            *old(overflow),
            *final(overflow),
            overflow_of(tree.spec_store().pages(), ordinal, i as int),
        ),
        Reporter::quiet(old(reporter), final(reporter)) ==> value_sound(
            tree.spec_store().pages(),
            tree.spec_store().file().section.count,
            ordinal,
            i as int,
            primary is Some,
            *final(overflow),
        ),
        held ==> Reporter::calm(old(reporter), final(reporter)),
{
    let ghost pages = tree.spec_store().pages();
    let ghost r0 = *reporter;
    proof {
        Reporter::lemma_same(reporter);
    }
    match entry.value {
        LeafValue::Overflow { page } => {
            check_overflow_value(tree, page, i, ordinal, reporter);
            let ghost r1 = *reporter;
            match primary {
                None => {
                    if let Some(set) = overflow {
                        set.insert(page);
                    }
                },
                Some(primary) => {
                    // The reference itself did not fit on the page, so read it back from
                    // where it went and check it like any other.
                    if let Some(blob) = walk_page(tree, page, reporter) {
                        let ghost r2 = *reporter;
                        proof {
                            tree.spec_store().lemma_pages_sound(page);
                            Reporter::lemma_quiet(&r0, &r1, &r2);
                        }
                        // Borrowed from the page, never copied: a reference is sixteen bytes,
                        // but a page that a damaged entry points at is as large as the file
                        // says it is.
                        match blob.parsed() {
                            Ok(blob_view) => {
                                if let Some(set) = &*overflow {
                                    check_page_ref(
                                        tree,
                                        primary,
                                        set,
                                        blob_view.blob_payload(),
                                        i,
                                        ordinal,
                                        reporter,
                                        Ghost(
                                            if held {
                                                target
                                            } else {
                                                None
                                            },
                                        ),
                                    );
                                }
                            },
                            Err(e) => {
                                reporter.failed_with(
                                    Some(
                                        page.get(
                                            )),
                                            Words::new("entry ")
                                                .number(i as u64), e);
                            },
                        }
                        proof {
                            Reporter::lemma_quiet(&r0, &r2, reporter);
                        }
                    }
                    proof {
                        Reporter::lemma_quiet(&r0, &r1, reporter);
                    }
                },
            }
        },
        LeafValue::Inline { offset, len } => {
            if let Some(primary) = primary {
                match view.inline_value(offset, len) {
                    Ok(value) => {
                        if let Some(set) = &*overflow {
                            check_page_ref(
                                tree,
                                primary,
                                set,
                                value,
                                i,
                                ordinal,
                                reporter,
                                Ghost(
                                    if held {
                                        target
                                    } else {
                                        None
                                    },
                                ),
                            );
                        }
                    },
                    Err(e) => {
                        proof {
                            assert(node::leaf_entry_at(view.page(), i as int) is Some);
                        }
                        reporter.failed_with(
                            Some(
                                ordinal.get(
                                    )),
                                    Words::new("entry ")
                                        .number(i as u64), e);
                    },
                }
            }
        },
    }
}

/// The key before the one a walk of leaves is at, and whether it is one of several that its
/// digest may stand for.
pub struct LeafOrder {
    previous: Previous,
    rebuilt: bool,
    key_charge: Charge,
}

impl LeafOrder {
    /// The key, once there is one.
    pub closed spec fn spec_key(&self) -> Option<Seq<u8>> {
        self.previous.spec_key()
    }

    /// Whether it is one of several that its digest may stand for.
    pub closed spec fn spec_rebuilt(&self) -> bool {
        self.rebuilt
    }

    /// Whether the copies are paid from the budget of a tree's store.
    pub closed spec fn paid(&self, tree: &Tree) -> bool {
        self.previous.paid(tree) && self.key_charge.owner() == tree.spec_store().spec_budget()
    }

    /// No key yet.
    fn new(tree: &Tree, previous: Previous) -> (r: Result<LeafOrder, Error>)
        requires
            previous.paid(tree),
        ensures
            match r {
                Ok(o) => o.paid(tree) && o.spec_key() is None,
                Err(_) => false,
            },
    {
        let key_charge = match tree.store().reserve(0) {
            Ok(charge) => charge,
            Err(e) => return Err(e),
        };
        let mut previous = previous;
        previous.forget(Ghost(tree));
        Ok(LeafOrder { previous, rebuilt: false, key_charge })
    }
}

/// Whether a key may come after another.
pub open spec fn follows(
    e: SharedEncoding,
    before: Option<Seq<u8>>,
    before_inexact: bool,
    key: Seq<u8>,
    inexact: bool,
) -> bool {
    before matches Some(k) ==> {
        let s = e.inner.sign(k, key);
        s < 0 || s == 0 && (before_inexact || inexact)
    }
}

/// Whether one more entry was counted, and nothing else.
pub open spec fn one_counted(a: &Reporter, b: &Reporter) -> bool {
    let (x, y) = (a.spec_report(), b.spec_report());
    &&& y.pages_checked == x.pages_checked
    &&& y.trees_checked == x.trees_checked
    &&& y.entries_checked == budget::capped(x.entries_checked + 1)
}

/// Whether an entry is one that a check passes, when the trees are known to be held: it is
/// the row after the one the walk is at.
pub open spec fn entry_held(
    tree: &Tree,
    before: Option<Seq<u8>>,
    o: PageOrdinal,
    i: int,
    s: TreeShape,
    layout: NodeLayout,
    j: int,
) -> bool {
    let r = s.levels[0][j].first + i;
    &&& tree.holds(s, layout)
    &&& paths::leaf_at(s, o, j)
    &&& before == (if r == 0 {
        None
    } else {
        Some(s.rows[r - 1].key)
    })
}

/// Checks one entry of a leaf. Returns whether to go on.
fn check_entry(
    tree: &Tree,
    view: &PageView<'_>,
    ordinal: PageOrdinal,
    i: usize,
    primary: Option<&Tree>,
    overflow: &mut Option<OverflowPages>,
    order: &mut LeafOrder,
    reporter: &mut Reporter,
    Ghost(target): Ghost<Target>,
    Ghost(held): Ghost<Option<(TreeShape, NodeLayout, int)>>,
) -> (r: Result<bool, Error>)
    requires
        old(reporter).paid(),
        old(reporter).covers(tree),
        primary matches Some(t) ==> old(reporter).covers(t),
        old(order).paid(tree),
        tree.spec_store().pages().contains_key(ordinal),
        tree.spec_store().pages()[ordinal] == view.page(),
        node::page_kind(view.page()) == NodeKind::Leaf,
        node::entries_ok(view.page()),
        i < node::page_count(view.page()),
        refers_home(primary, tree, *old(overflow)),
        held matches Some((s, layout, j)) ==> value_held(
            tree,
            primary,
            *old(overflow),
            ordinal,
            i as int,
            target,
        ) && entry_held(tree, old(order).spec_key(), ordinal, i as int, s, layout, j),
    ensures
        Reporter::grew(old(reporter), final(reporter)),
        final(order).paid(tree),
        primary is Some ==> *final(overflow) == *old(overflow),
        primary is None ==> added(
            *old(overflow),
            *final(overflow),
            overflow_of(tree.spec_store().pages(), ordinal, i as int),
        ),
        held is Some ==> Reporter::calm(old(reporter), final(reporter)),
        r matches Ok(go) ==> (Reporter::quiet(old(reporter), final(reporter)) ==> {
            let e = tree.spec_encoding();
            let p = view.page();
            &&& go
            &&& one_counted(old(reporter), final(reporter))
            &&& value_sound(
                tree.spec_store().pages(),
                tree.spec_store().file().section.count,
                ordinal,
                i as int,
                primary is Some,
                *final(overflow),
            )
            &&& sound::leaf_key(e, p, i as int) is Some
            &&& follows(
                e,
                old(order).spec_key(),
                old(order).spec_rebuilt(),
                sound::leaf_key(e, p, i as int)->Some_0,
                sound::inexact(e, p),
            )
            &&& final(order).spec_key() == sound::leaf_key(e, p, i as int)
            &&& final(order).spec_rebuilt() == sound::inexact(e, p)
        }),
        r matches Ok(go) ==> (held matches Some((s, layout, j)) ==> go && (final(reporter).spec_failure() is None ==> one_counted(old(reporter), final(reporter)) && final(order).spec_key() == Some(s.rows[s.levels[0][j].first + i].key))),
        r matches Err(e) ==> tree.walk_denied(e),
{
    let ghost e = tree.spec_encoding();
    let ghost p = view.page();
    let ghost pages = tree.spec_store().pages();
    let ghost r0 = *reporter;
    let ghost before = order.spec_key();
    proof {
        Reporter::lemma_same(reporter);
        assert(node::entry_ok(p, i as int));
        if let Some((s, layout, j)) = held {
            refs::lemma_row_key(s, e, layout, pages, tree.spec_root()->Some_0, j, i as int);
        }
    }
    let entry = match view.leaf_entry(i) {
        Ok(entry) => entry,
        Err(e) => {
            proof {
                assert(false);
            }
            return Ok(true);
        },
    };
    check_value(
        tree,
        view,
        &entry,
        i,
        ordinal,
        primary,
        overflow,
        reporter,
        Ghost(target),
        Ghost(held is Some),
    );
    let ghost r1 = *reporter;
    let mut buf: Vec<u8> = Vec::new();
    let omitted = view.layout().omitted_keys;
    if omitted {
        let capacity = match tree.rebuilt_key_capacity() {
            Ok(capacity) => capacity,
            Err(e) => {
                reporter.failed_with(Some(ordinal.get()), Words::new("entry ").number(i as u64), e);
                proof {
                    Reporter::lemma_quiet(&r0, &r1, reporter);
                }
                return Ok(false);
            },
        };
        match charge_at_least(tree, &mut order.key_charge, capacity) {
            Ok(_) => {},
            Err(e) => {
                proof {
                    tree.lemma_key_denied(ordinal, i as int, e);
                }
                return Err(e);
            },
        }
        match tree.rebuild_key(view, i, &mut buf) {
            Ok(_) => {},
            Err(_) => {
                reporter.problem_words(
                    ordinal,
                    Words::new("entry ")
                        .number(i as u64)
                        .say(": the key could not be rebuilt"),
                );
                proof {
                    Reporter::lemma_quiet(&r0, &r1, reporter);
                }
                return Ok(true);
            },
        }
    }
    let key = if omitted {
        buf.as_slice()
    } else {
        match within::entry_key(view, i) {
            Ok(key) => key,
            Err(e) => {
                proof {
                    assert(false);
                }
                return Ok(true);
            },
        }
    };
    proof {
        assert(sound::leaf_key(e, p, i as int) == Some(key@));
        if let Some((s, layout, j)) = held {
            let r = s.levels[0][j].first + i;
            assert(e.inner.accepts(s.rows[r].key));
            if r > 0 {
                assert(e.inner.accepts(s.rows[r - 1].key));
                assert(e.inner.sign(s.rows[r - 1].key, s.rows[r].key) < 0);
            }
        }
    }
    // Every entry is compared with the one before it, across pages as well as within one,
    // because a tree can change layout at a page boundary and then neither side's own rule
    // sees the crossing.
    //
    // A key rebuilt from a digest under an encoding whose digest is not injective is not the
    // key the page was written with, so a run of them may all rebuild to the same thing.
    // Equal is allowed when either side is such a key, and strictly ascending otherwise.
    let inexact = within::separators_are_inexact(tree.encoding(), view);
    let wrong = match order.previous.order(tree.encoding(), key) {
        None => false,
        Some(Ok(KeyOrder::Less)) => false,
        Some(Ok(KeyOrder::Equal)) => !(inexact || order.rebuilt),
        Some(Ok(KeyOrder::Greater)) => true,
        Some(Err(e)) => {
            reporter.failed_with(Some(ordinal.get()), Words::new("entry ").number(i as u64), e);
            proof {
                Reporter::lemma_quiet(&r0, &r1, reporter);
            }
            return Ok(true);
        },
    };
    if wrong {
        reporter.problem_words(
            ordinal,
            Words::new("entry ")
                .number(i as u64)
                .say(" does not sort above the previous entry"),
        );
    }
    let ghost r2 = *reporter;
    proof {
        if r2 == r1 {
            Reporter::lemma_same(&r1);
        }
        Reporter::lemma_quiet(&r0, &r1, &r2);
    }
    match order.previous.remember(tree, key) {
        Ok(_) => {},
        Err(e) => {
            proof {
                tree.lemma_key_denied(ordinal, i as int, e);
            }
            return Err(e);
        },
    }
    order.rebuilt = inexact;
    reporter.count_entry();
    proof {
        Reporter::lemma_quiet(&r0, &r2, reporter);
    }
    Ok(true)
}

/// The blob page of an entry, when its value is on one.
pub open spec fn overflow_at(pages: Pages, at: Place) -> Option<PageOrdinal> {
    overflow_of(pages, at.page, at.index)
}

/// Whether a page is the blob page of one of these entries.
pub open spec fn is_overflow(pages: Pages, list: Seq<Place>, o: PageOrdinal) -> bool {
    exists|x: int| 0 <= x < list.len() && overflow_at(pages, #[trigger] list[x]) == Some(o)
}

/// Whether the blob pages of these entries were added to what is remembered, and nothing
/// else.
#[verifier::opaque]
pub open spec fn gathered(
    a: Option<OverflowPages>,
    b: Option<OverflowPages>,
    pages: Pages,
    list: Seq<Place>,
) -> bool {
    match (a, b) {
        (Some(x), Some(y)) => {
            &&& y.room() == x.room()
            &&& y.home() == x.home()
            &&& forall|o: PageOrdinal|
                #[trigger] y.has(o) == (x.has(o) || is_overflow(pages, list, o) && o.get()
                    < x.room())
        },
        (None, None) => true,
        _ => false,
    }
}

/// No entry adds nothing.
proof fn lemma_gathered_none(a: Option<OverflowPages>, pages: Pages)
    ensures
        gathered(a, a, pages, Seq::empty()),
{
    reveal(gathered);
}

/// One more entry.
proof fn lemma_gathered_more(
    a: Option<OverflowPages>,
    b: Option<OverflowPages>,
    c: Option<OverflowPages>,
    pages: Pages,
    list: Seq<Place>,
    at: Place,
)
    requires
        gathered(a, b, pages, list),
        added(b, c, overflow_at(pages, at)),
    ensures
        gathered(a, c, pages, list.push(at)),
{
    reveal(gathered);
    let m = list.push(at);
    assert(m[list.len() as int] == at);
    assert forall|o: PageOrdinal| is_overflow(pages, list, o) implies #[trigger] is_overflow(
        pages,
        m,
        o,
    ) by {
        let x = choose|x: int|
            0 <= x < list.len() && overflow_at(pages, #[trigger] list[x]) == Some(o);
        assert(m[x] == list[x]);
    }
    assert forall|o: PageOrdinal| #[trigger] is_overflow(pages, m, o) implies is_overflow(
        pages,
        list,
        o,
    ) || overflow_at(pages, at) == Some(o) by {
        let x = choose|x: int| 0 <= x < m.len() && overflow_at(pages, #[trigger] m[x]) == Some(o);
        if x < list.len() {
            assert(m[x] == list[x]);
        }
    }
}

/// Whether each of these entries sorts above the one before it.
#[verifier::opaque]
pub open spec fn in_order(e: SharedEncoding, pages: Pages, list: Seq<Place>) -> bool {
    forall|i: int| 1 <= i < list.len() ==> #[trigger] sound::entry_step(e, pages, list, i)
}

/// Whether a key is that of the last of these entries.
pub open spec fn at_end(
    e: SharedEncoding,
    pages: Pages,
    list: Seq<Place>,
    key: Option<Seq<u8>>,
    rebuilt: bool,
) -> bool {
    if list.len() == 0 {
        key is None
    } else {
        let at = list.last();
        &&& key is Some
        &&& key == sound::leaf_key(e, pages[at.page], at.index)
        &&& rebuilt == sound::inexact(e, pages[at.page])
    }
}

/// One more entry.
proof fn lemma_order_more(
    e: SharedEncoding,
    pages: Pages,
    list: Seq<Place>,
    at: Place,
    key: Option<Seq<u8>>,
    rebuilt: bool,
)
    requires
        in_order(e, pages, list),
        at_end(e, pages, list, key, rebuilt),
        sound::leaf_key(e, pages[at.page], at.index) is Some,
        follows(
            e,
            key,
            rebuilt,
            sound::leaf_key(e, pages[at.page], at.index)->Some_0,
            sound::inexact(e, pages[at.page]),
        ),
    ensures
        in_order(e, pages, list.push(at)),
{
    reveal(in_order);
    let m = list.push(at);
    assert forall|i: int| 1 <= i < m.len() implies #[trigger] sound::entry_step(e, pages, m, i) by {
        if i < list.len() {
            assert(sound::entry_step(e, pages, list, i));
            assert(m[i] == list[i] && m[i - 1] == list[i - 1]);
        } else {
            assert(m[i] == at && m[i - 1] == list.last());
        }
    }
}

/// Whether one entry was found sound, with what is in its value position.
pub open spec fn entry_checked(
    e: SharedEncoding,
    pages: Pages,
    count: int,
    o: PageOrdinal,
    i: int,
    known: Option<OverflowPages>,
) -> bool {
    &&& sound::entry_ok(e, pages, count, o, i)
    &&& value_sound(pages, count, o, i, known is Some, known)
}

/// Whether the entries of a leaf were found sound.
pub open spec fn entries_checked(
    e: SharedEncoding,
    pages: Pages,
    count: int,
    o: PageOrdinal,
    n: int,
    known: Option<OverflowPages>,
) -> bool {
    forall|i: int| 0 <= i < n ==> #[trigger] entry_checked(e, pages, count, o, i, known)
}

/// The overflow pages of the table that references lead into, in an index.
pub open spec fn known_pages(primary: Option<&Tree>, overflow: Option<OverflowPages>) -> Option<
    OverflowPages,
> {
    if primary is Some {
        overflow
    } else {
        None
    }
}

/// Whether entries were counted, and nothing else.
pub open spec fn more_counted(a: &Reporter, b: &Reporter, n: int) -> bool {
    let (x, y) = (a.spec_report(), b.spec_report());
    &&& y.pages_checked == x.pages_checked
    &&& y.trees_checked == x.trees_checked
    &&& y.entries_checked == budget::capped(x.entries_checked + n)
}

/// Whether every value of a held tree is one that a check passes.
#[verifier::opaque]
pub open spec fn values_held(
    tree: &Tree,
    primary: Option<&Tree>,
    known: Option<OverflowPages>,
    s: TreeShape,
    target: Target,
) -> bool {
    forall|j: int, i: int|
        0 <= j < s.levels[0].len() && 0 <= i < s.levels[0][j].count ==> #[trigger] value_held(
            tree,
            primary,
            known,
            s.levels[0][j].ordinal,
            i,
            target,
        )
}

/// The key of the row before one.
pub open spec fn key_before(s: TreeShape, r: int) -> Option<Seq<u8>> {
    if r == 0 {
        None
    } else {
        Some(s.rows[r - 1].key)
    }
}

/// One value of a held tree is one that a check passes.
proof fn lemma_value_held(
    tree: &Tree,
    primary: Option<&Tree>,
    overflow: Option<OverflowPages>,
    s: TreeShape,
    target: Target,
    j: int,
    i: int,
)
    requires
        values_held(tree, primary, known_pages(primary, overflow), s, target),
        0 <= j < s.levels[0].len(),
        0 <= i < s.levels[0][j].count,
    ensures
        value_held(tree, primary, overflow, s.levels[0][j].ordinal, i, target),
{
    reveal(values_held);
    assert(value_held(
        tree,
        primary,
        known_pages(primary, overflow),
        s.levels[0][j].ordinal,
        i,
        target,
    ));
}

/// Checks the entries of a leaf. Returns whether to go on.
fn check_entries(
    tree: &Tree,
    view: &PageView<'_>,
    ordinal: PageOrdinal,
    primary: Option<&Tree>,
    overflow: &mut Option<OverflowPages>,
    order: &mut LeafOrder,
    reporter: &mut Reporter,
    Ghost(list): Ghost<Seq<Place>>,
    Ghost(target): Ghost<Target>,
    Ghost(held): Ghost<Option<(TreeShape, NodeLayout, int)>>,
) -> (r: Result<bool, Error>)
    requires
        old(reporter).paid(),
        old(reporter).covers(tree),
        primary matches Some(t) ==> old(reporter).covers(t),
        old(order).paid(tree),
        tree.spec_store().pages().contains_key(ordinal),
        tree.spec_store().pages()[ordinal] == view.page(),
        node::page_kind(view.page()) == NodeKind::Leaf,
        node::entries_ok(view.page()),
        refers_home(primary, tree, *old(overflow)),
        held matches Some((s, layout, j)) ==> {
            &&& !old(reporter).is_full()
            &&& tree.holds(s, layout)
            &&& paths::leaf_at(s, ordinal, j)
            &&& values_held(tree, primary, known_pages(primary, *old(overflow)), s, target)
            &&& old(order).spec_key() == key_before(s, s.levels[0][j].first)
        },
    ensures
        Reporter::grew(old(reporter), final(reporter)),
        final(order).paid(tree),
        known_pages(primary, *final(overflow)) == known_pages(primary, *old(overflow)),
        same_home(*old(overflow), *final(overflow)),
        held is Some ==> Reporter::calm(old(reporter), final(reporter)),
        r matches Ok(go) ==> (Reporter::quiet(old(reporter), final(reporter)) ==> {
            let e = tree.spec_encoding();
            let pages = tree.spec_store().pages();
            let more = list + sound::entries_of(pages, ordinal);
            &&& go
            &&& more_counted(old(reporter), final(reporter), node::page_count(view.page()) as int)
            &&& entries_checked(
                e,
                pages,
                tree.spec_store().file().section.count,
                ordinal,
                node::page_count(view.page()) as int,
                known_pages(primary, *final(overflow)),
            )
            &&& in_order(e, pages, list) && at_end(
                e,
                pages,
                list,
                old(order).spec_key(),
                old(order).spec_rebuilt(),
            ) ==> in_order(e, pages, more) && at_end(
                e,
                pages,
                more,
                final(order).spec_key(),
                final(order).spec_rebuilt(),
            )
            &&& primary is None ==> gathered(
                *old(overflow),
                *final(overflow),
                pages,
                sound::entries_of(pages, ordinal),
            )
        }),
        r matches Ok(go) ==> (final(reporter).spec_failure() is None ==> (held matches Some(
            (s, layout, j),
        ) ==> {
            &&& go
            &&& more_counted(old(reporter), final(reporter), node::page_count(view.page()) as int)
            &&& final(order).spec_key() == key_before(
                s,
                s.levels[0][j].first + s.levels[0][j].count,
            )
            &&& primary is None ==> gathered(
                *old(overflow),
                *final(overflow),
                tree.spec_store().pages(),
                sound::entries_of(tree.spec_store().pages(), ordinal),
            )
        })),
        r matches Err(e) ==> tree.walk_denied(e),
{
    let ghost e = tree.spec_encoding();
    let ghost p = view.page();
    let ghost pages = tree.spec_store().pages();
    let ghost count = tree.spec_store().file().section.count;
    let ghost all = sound::entries_of(pages, ordinal);
    let ghost r0 = *reporter;
    let ghost known = known_pages(primary, *overflow);
    let ghost fit = in_order(e, pages, list) && at_end(
        e,
        pages,
        list,
        order.spec_key(),
        order.spec_rebuilt(),
    );
    let n = view.entry_count();
    let mut i: usize = 0;
    proof {
        Reporter::lemma_same(reporter);
        lemma_gathered_none(*overflow, pages);
        assert(all.subrange(0, 0) =~= Seq::<Place>::empty());
        assert(list + all.subrange(0, 0) =~= list);
        if let Some((s, layout, j)) = held {
            paths::lemma_node_ordered(s, e, layout, pages, tree.spec_root()->Some_0, 0, j);
        }
    }
    while i < n
        invariant
            e == tree.spec_encoding(),
            p == view.page(),
            pages == tree.spec_store().pages(),
            count == tree.spec_store().file().section.count,
            all == sound::entries_of(pages, ordinal),
            r0 == *old(reporter),
            known == known_pages(primary, *old(overflow)),
            pages.contains_key(ordinal),
            pages[ordinal] == p,
            node::page_kind(p) == NodeKind::Leaf,
            node::entries_ok(p),
            i <= n,
            n == node::page_count(p),
            Reporter::grew(&r0, reporter),
            reporter.covers(tree),
            primary matches Some(t) ==> reporter.covers(t),
            order.paid(tree),
            known == known_pages(primary, *overflow),
            same_home(*old(overflow), *overflow),
            refers_home(primary, tree, *old(overflow)),
            primary is None ==> gathered(*old(overflow), *overflow, pages, all.subrange(0, i as int)),
            Reporter::quiet(&r0, reporter) ==> {
                &&& more_counted(&r0, reporter, i as int)
                &&& entries_checked(e, pages, count, ordinal, i as int, known)
                &&& fit ==> in_order(e, pages, list + all.subrange(0, i as int)) && at_end(
                    e,
                    pages,
                    list + all.subrange(0, i as int),
                    order.spec_key(),
                    order.spec_rebuilt(),
                )
            },
            held matches Some((s, layout, j)) ==> {
                &&& Reporter::calm(&r0, reporter)
                &&& !r0.is_full()
                &&& tree.holds(s, layout)
                &&& paths::leaf_at(s, ordinal, j)
                &&& n == s.levels[0][j].count
                &&& values_held(tree, primary, known, s, target)
                &&& reporter.spec_failure() is None ==> more_counted(&r0, reporter, i as int)
                    && order.spec_key() == key_before(s, s.levels[0][j].first + i)
            },
        decreases n - i,
    {
        if reporter.full() {
            return Ok(false);
        }
        let ghost r1 = *reporter;
        let ghost was = *overflow;
        let ghost (key, rebuilt) = (order.spec_key(), order.spec_rebuilt());
        let ghost at = Place { page: ordinal, index: i as int };
        proof {
            if let Some((s, layout, j)) = held {
                lemma_value_held(tree, primary, *overflow, s, target, j, i as int);
                refs::lemma_row_key(
                    s,
                    e,
                    layout,
                    pages,
                    tree.spec_root()->Some_0,
                    j,
                    i as int,
                );
            }
        }
        let checked = check_entry(
            tree,
            view,
            ordinal,
            i,
            primary,
            overflow,
            order,
            reporter,
            Ghost(target),
            Ghost(held),
        );
        proof {
            Reporter::lemma_quiet(&r0, &r1, reporter);
            assert(all.subrange(0, i + 1) =~= all.subrange(0, i as int).push(at));
            assert(list + all.subrange(0, i + 1) =~= (list + all.subrange(0, i as int)).push(at));
            if primary is None {
                lemma_gathered_more(
                    *old(overflow),
                    was,
                    *overflow,
                    pages,
                    all.subrange(0, i as int),
                    at,
                );
            }
            if checked is Ok && Reporter::quiet(&r0, reporter) {
                assert(node::entry_ok(p, i as int));
                assert(entry_checked(e, pages, count, ordinal, i as int, known));
                if fit {
                    lemma_order_more(
                        e,
                        pages,
                        list + all.subrange(0, i as int),
                        at,
                        key,
                        rebuilt,
                    );
                }
            }
        }
        match checked {
            Ok(true) => {},
            Ok(false) => return Ok(false),
            Err(e) => return Err(e),
        }
        i += 1;
    }
    proof {
        assert(all.subrange(0, n as int) =~= all);
    }
    Ok(true)
}

/// What two runs of entries add, one after the other.
proof fn lemma_gathered_join(
    a: Option<OverflowPages>,
    b: Option<OverflowPages>,
    c: Option<OverflowPages>,
    pages: Pages,
    list: Seq<Place>,
    more: Seq<Place>,
)
    requires
        gathered(a, b, pages, list),
        gathered(b, c, pages, more),
    ensures
        gathered(a, c, pages, list + more),
{
    reveal(gathered);
    let m = list + more;
    assert forall|o: PageOrdinal| #[trigger]
        is_overflow(pages, m, o) == (is_overflow(pages, list, o) || is_overflow(
            pages,
            more,
            o,
        )) by {
        if is_overflow(pages, list, o) {
            let x = choose|x: int|
                0 <= x < list.len() && overflow_at(pages, #[trigger] list[x]) == Some(o);
            assert(m[x] == list[x]);
        }
        if is_overflow(pages, more, o) {
            let x = choose|x: int|
                0 <= x < more.len() && overflow_at(pages, #[trigger] more[x]) == Some(o);
            assert(m[list.len() + x] == more[x]);
        }
        if is_overflow(pages, m, o) {
            let x = choose|x: int|
                0 <= x < m.len() && overflow_at(pages, #[trigger] m[x]) == Some(o);
            if x < list.len() {
                assert(m[x] == list[x]);
            } else {
                assert(m[x] == more[x - list.len()]);
            }
        }
    }
}

/// Whether a leaf was found sound, with what is in the value positions of its entries.
pub open spec fn leaf_checked(
    e: SharedEncoding,
    pages: Pages,
    count: int,
    o: PageOrdinal,
    known: Option<OverflowPages>,
) -> bool {
    &&& sound::leaf_ok(e, pages, count, o)
    &&& entries_checked(e, pages, count, o, node::page_count(pages[o]) as int, known)
}

/// Whether the first leaves are sound and linked to each other.
#[verifier::opaque]
pub open spec fn leaf_front(
    e: SharedEncoding,
    pages: Pages,
    count: int,
    l: Seq<PageOrdinal>,
    known: Option<OverflowPages>,
) -> bool {
    &&& chain::linked(pages, l)
    &&& forall|i: int| 0 <= i < l.len() ==> #[trigger] sound::left_ok(pages, l, i)
    &&& forall|i: int| 0 <= i < l.len() ==> #[trigger] leaf_checked(e, pages, count, l[i], known)
    &&& in_order(e, pages, sound::entry_list(pages, l))
}

/// One more leaf.
proof fn lemma_leaf_push(
    e: SharedEncoding,
    pages: Pages,
    count: int,
    l: Seq<PageOrdinal>,
    o: PageOrdinal,
    known: Option<OverflowPages>,
)
    requires
        leaf_front(e, pages, count, l, known),
        leaf_checked(e, pages, count, o, known),
        node::page_left(pages[o]) == (if l.len() == 0 {
            None
        } else {
            Some(l.last())
        }),
        l.len() > 0 ==> node::page_right(pages[l.last()]) == Some(o),
        in_order(e, pages, sound::entry_list(pages, l) + sound::entries_of(pages, o)),
    ensures
        leaf_front(e, pages, count, l.push(o), known),
{
    reveal(leaf_front);
    let m = l.push(o);
    assert(m.drop_last() =~= l);
    assert forall|i: int| 0 <= i < m.len() implies #[trigger] sound::left_ok(pages, m, i) by {
        if i < l.len() {
            assert(sound::left_ok(pages, l, i));
            assert(m[i] == l[i]);
            assert(i > 0 ==> m[i - 1] == l[i - 1]);
        }
    }
    assert forall|i: int| 0 <= i < m.len() - 1 implies #[trigger] sound::right_ok(pages, m, i) by {
        if i < l.len() - 1 {
            assert(sound::right_ok(pages, l, i));
            assert(m[i] == l[i] && m[i + 1] == l[i + 1]);
        }
    }
    assert forall|i: int| 0 <= i < m.len() implies #[trigger] leaf_checked(
        e,
        pages,
        count,
        m[i],
        known,
    ) by {
        if i < l.len() {
            assert(leaf_checked(e, pages, count, l[i], known));
        }
    }
}

/// No leaf yet.
proof fn lemma_leaf_start(
    e: SharedEncoding,
    pages: Pages,
    count: int,
    known: Option<OverflowPages>,
)
    ensures
        leaf_front(e, pages, count, Seq::empty(), known),
        in_order(e, pages, Seq::empty()),
{
    reveal(leaf_front);
    reveal(in_order);
}

/// Whether these are the leaves of a tree, all of them sound, with what is in the value
/// positions of their entries.
pub open spec fn leaves_walked(
    tree: &Tree,
    start: PageOrdinal,
    l: Seq<PageOrdinal>,
    known: Option<OverflowPages>,
) -> bool {
    let e = tree.spec_encoding();
    let pages = tree.spec_store().pages();
    let count = tree.spec_store().file().section.count;
    &&& l.len() > 0
    &&& l[0] == start
    &&& sound::leaves_ok(e, pages, count, l)
    &&& forall|i: int| 0 <= i < l.len() ==> #[trigger] leaf_checked(e, pages, count, l[i], known)
}

/// The walk reached the last leaf.
proof fn lemma_leaves_end(
    tree: &Tree,
    start: PageOrdinal,
    l: Seq<PageOrdinal>,
    known: Option<OverflowPages>,
)
    requires
        leaf_front(
            tree.spec_encoding(),
            tree.spec_store().pages(),
            tree.spec_store().file().section.count,
            l,
            known,
        ),
        l.len() > 0,
        l[0] == start,
        node::page_right(tree.spec_store().pages()[l.last()]) is None,
    ensures
        leaves_walked(tree, start, l, known),
{
    reveal(leaf_front);
    reveal(in_order);
    let e = tree.spec_encoding();
    let pages = tree.spec_store().pages();
    let count = tree.spec_store().file().section.count;
    assert forall|i: int| 0 <= i < l.len() implies #[trigger] sound::right_ok(pages, l, i) by {
        if i < l.len() - 1 {
            assert(sound::right_ok(pages, l, i));
        }
    }
    assert forall|i: int| 0 <= i < l.len() implies #[trigger] sound::leaf_ok(
        e,
        pages,
        count,
        l[i],
    ) by {
        assert(leaf_checked(e, pages, count, l[i], known));
    }
}

/// The leaves of a held tree.
pub open spec fn leaf_pages(s: TreeShape, n: int) -> Seq<PageOrdinal> {
    Seq::new(n as nat, |q: int| s.levels[0][q].ordinal)
}

/// How many rows come before leaf `n` of a held tree.
pub open spec fn rows_before(s: TreeShape, n: int) -> int {
    if n < s.levels[0].len() {
        s.levels[0][n].first
    } else {
        s.rows.len() as int
    }
}

/// What is known of a walk of the leaves of a held tree that has done `n` of them.
#[verifier::opaque]
pub open spec fn leaf_hope(
    tree: &Tree,
    primary: Option<&Tree>,
    known: Option<OverflowPages>,
    target: Target,
    held: Option<(TreeShape, NodeLayout)>,
    l: Seq<PageOrdinal>,
    next: PageOrdinal,
    steps: int,
) -> bool {
    held matches Some((s, layout)) ==> {
        &&& tree.holds(s, layout)
        &&& tree.spec_store().steady()
        &&& values_held(tree, primary, known, s, target)
        &&& l == leaf_pages(s, l.len() as int)
        &&& l.len() < s.levels[0].len()
        &&& next == s.levels[0][l.len() as int].ordinal
        &&& steps >= s.levels[0].len() - l.len()
    }
}

/// A walk of the leaves of a held tree starts at the first.
proof fn lemma_leaf_hope_start(
    tree: &Tree,
    primary: Option<&Tree>,
    known: Option<OverflowPages>,
    target: Target,
    held: Option<(TreeShape, NodeLayout)>,
    start: PageOrdinal,
    steps: int,
)
    requires
        held matches Some((s, layout)) ==> {
            &&& tree.holds(s, layout)
            &&& tree.spec_store().steady()
            &&& values_held(tree, primary, known, s, target)
            &&& start == s.levels[0][0].ordinal
        },
        steps >= tree.spec_store().file().section.count,
        tree.spec_store().file().section.count >= 0,
    ensures
        leaf_hope(tree, primary, known, target, held, Seq::empty(), start, steps),
        held matches Some((s, layout)) ==> rows_before(s, 0) == 0,
{
    reveal(leaf_hope);
    let pages = tree.spec_store().pages();
    let count = tree.spec_store().file().section.count;
    if let Some((s, layout)) = held {
        assert forall|o: PageOrdinal| #[trigger] pages.contains_key(o) implies o.get() < count by {
            tree.spec_store().lemma_pages_sound(o);
        }
        sound::lemma_node_count(
            s,
            tree.spec_encoding(),
            layout,
            pages,
            tree.spec_root()->Some_0,
            count,
        );
        sound::lemma_nodes_part(s, 1, s.levels.len() as int);
        reveal_with_fuel(sound::nodes_in, 2);
        assert(sound::nodes_in(s, 1) == s.levels[0].len());
        paths::lemma_levels_filled(s, 0);
        assert(leaf_pages(s, 0) =~= Seq::<PageOrdinal>::empty());
        if !s.is_hollow() {
            assert(s.tiled(0));
        }
    }
}

/// What a leaf of a held tree is.
proof fn lemma_leaf_hope(
    tree: &Tree,
    primary: Option<&Tree>,
    known: Option<OverflowPages>,
    target: Target,
    held: Option<(TreeShape, NodeLayout)>,
    l: Seq<PageOrdinal>,
    next: PageOrdinal,
    steps: int,
)
    requires
        leaf_hope(tree, primary, known, target, held, l, next, steps),
    ensures
        held matches Some((s, layout)) ==> {
            let pages = tree.spec_store().pages();
            let n = l.len() as int;
            let p = pages[next];
            &&& steps > 0
            &&& tree.holds(s, layout)
            &&& tree.spec_store().steady()
            &&& values_held(tree, primary, known, s, target)
            &&& paths::leaf_at(s, next, n)
            &&& pages.contains_key(next)
            &&& node::page_kind(p) == NodeKind::Leaf
            &&& within::digests_sound(tree.spec_encoding(), p)
            &&& node::page_left(p) == (if n == 0 {
                None
            } else {
                Some(l.last())
            })
            &&& rows_before(s, n) == s.levels[0][n].first
            &&& rows_before(s, n + 1) == s.levels[0][n].first + s.levels[0][n].count
            &&& node::page_count(p) == s.levels[0][n].count
            &&& rows_before(s, n) >= 0
            &&& match node::page_right(p) {
                Some(o) => pages.contains_key(o),
                None => l.push(next) == leaf_pages(s, s.levels[0].len() as int) && rows_before(
                    s,
                    n + 1,
                ) == s.rows.len(),
            }
        },
        node::page_right(tree.spec_store().pages()[next]) matches Some(o) ==> leaf_hope(
            tree,
            primary,
            known,
            target,
            held,
            l.push(next),
            o,
            steps - 1,
        ),
{
    reveal(leaf_hope);
    if let Some((s, layout)) = held {
        let pages = tree.spec_store().pages();
        let e = tree.spec_encoding();
        let root = tree.spec_root()->Some_0;
        let n = l.len() as int;
        paths::lemma_node_ordered(s, e, layout, pages, root, 0, n);
        assert(model::node_ok(s, e, layout, pages, 0, n));
        assert(l.push(next) =~= leaf_pages(s, n + 1));
        if n > 0 {
            assert(l.last() == leaf_pages(s, n)[n - 1]);
        }
        if !s.is_hollow() {
            assert(s.tiled(0));
            model::lemma_tiles_inside(s, 0, n);
        }
        if n + 1 < s.levels[0].len() {
            assert(model::node_ok(s, e, layout, pages, 0, n + 1));
        }
    }
}

/// Walks the leaves of a tree along their sibling chain. Returns the leaves it went through.
#[verifier::rlimit(40)]
fn walk_leaves(
    tree: &Tree,
    leftmost: PageOrdinal,
    previous: Previous,
    primary: Option<&Tree>,
    overflow: &mut Option<OverflowPages>,
    reporter: &mut Reporter,
    Ghost(target): Ghost<Target>,
    Ghost(held): Ghost<Option<(TreeShape, NodeLayout)>>,
) -> (r: Result<Ghost<Seq<PageOrdinal>>, Error>)
    requires
        old(reporter).paid(),
        old(reporter).covers(tree),
        primary matches Some(t) ==> old(reporter).covers(t),
        previous.paid(tree),
        refers_home(primary, tree, *old(overflow)),
        held matches Some((s, layout)) ==> {
            &&& !old(reporter).is_full()
            &&& tree.holds(s, layout)
            &&& tree.spec_store().steady()
            &&& values_held(tree, primary, known_pages(primary, *old(overflow)), s, target)
            &&& leftmost == s.levels[0][0].ordinal
        },
    ensures
        Reporter::grew(old(reporter), final(reporter)),
        known_pages(primary, *final(overflow)) == known_pages(primary, *old(overflow)),
        same_home(*old(overflow), *final(overflow)),
        held is Some ==> Reporter::calm(old(reporter), final(reporter)),
        r matches Ok(l) ==> (Reporter::quiet(old(reporter), final(reporter)) ==> {
            let list = sound::entry_list(tree.spec_store().pages(), l@);
            &&& leaves_walked(tree, leftmost, l@, known_pages(primary, *final(overflow)))
            &&& more_counted(old(reporter), final(reporter), list.len() as int)
            &&& primary is None ==> gathered(
                *old(overflow),
                *final(overflow),
                tree.spec_store().pages(),
                list,
            )
        }),
        r matches Ok(l) ==> (final(reporter).spec_failure() is None ==> (held matches Some(
            (s, layout),
        ) ==> {
            &&& more_counted(old(reporter), final(reporter), s.rows.len() as int)
            &&& l@ == leaf_pages(s, s.levels[0].len() as int)
        })),
        r matches Err(e) ==> tree.walk_denied(e),
{
    let ghost e = tree.spec_encoding();
    let ghost pages = tree.spec_store().pages();
    let ghost count = tree.spec_store().file().section.count;
    let ghost r0 = *reporter;
    let ghost known = known_pages(primary, *overflow);
    let ghost mut l = Seq::<PageOrdinal>::empty();
    // A step budget rather than a set of visited pages: a cycle is caught just as well,
    // and the check then costs the same on a file of any size.
    let mut steps_left = tree.store().page_count().saturating_add(1);
    // The walk holds two keys: the one it rebuilt, and a copy of the one before it. Both
    // are a caller's keys, of a caller's length, so both are reserved before they grow.
    proof {
        Reporter::lemma_same(reporter);
        lemma_leaf_start(e, pages, count, known);
        lemma_gathered_none(*overflow, pages);
        lemma_leaf_hope_start(tree, primary, known, target, held, leftmost, steps_left as int);
        lemma_leaf_hope(tree, primary, known, target, held, l, leftmost, steps_left as int);
    }
    let mut order = match LeafOrder::new(tree, previous) {
        Ok(order) => order,
        Err(e) => return Err(e),
    };
    let mut pin = match walk_page(tree, leftmost, reporter) {
        Some(pin) => pin,
        None => return Ok(Ghost(l)),
    };
    let mut expected_left: Option<PageOrdinal> = None;
    loop
        invariant
            e == tree.spec_encoding(),
            pages == tree.spec_store().pages(),
            count == tree.spec_store().file().section.count,
            r0 == *old(reporter),
            known == known_pages(primary, *old(overflow)),
            known == known_pages(primary, *overflow),
            same_home(*old(overflow), *overflow),
            refers_home(primary, tree, *old(overflow)),
            Reporter::grew(&r0, reporter),
            reporter.covers(tree),
            primary matches Some(t) ==> reporter.covers(t),
            order.paid(tree),
            tree.pins(pin),
            l.len() == 0 ==> pin.spec_ordinal() == leftmost,
            l.len() > 0 ==> l[0] == leftmost && node::page_right(pages[l.last()]) == Some(
                pin.spec_ordinal(),
            ),
            expected_left == (if l.len() == 0 {
                None
            } else {
                Some(l.last())
            }),
            Reporter::quiet(&r0, reporter) ==> {
                let list = sound::entry_list(pages, l);
                &&& leaf_front(e, pages, count, l, known)
                &&& in_order(e, pages, list)
                &&& at_end(e, pages, list, order.spec_key(), order.spec_rebuilt())
                &&& more_counted(&r0, reporter, list.len() as int)
                &&& primary is None ==> gathered(*old(overflow), *overflow, pages, list)
            },
            leaf_hope(
                tree,
                primary,
                known,
                target,
                held,
                l,
                pin.spec_ordinal(),
                steps_left as int,
            ),
            held matches Some((s, layout)) ==> {
                &&& !r0.is_full()
                &&& Reporter::calm(&r0, reporter)
                &&& reporter.spec_failure() is None ==> {
                    &&& more_counted(&r0, reporter, rows_before(s, l.len() as int))
                    &&& order.spec_key() == key_before(s, rows_before(s, l.len() as int))
                }
            },
        decreases steps_left,
    {
        let ghost r1 = *reporter;
        let ghost steps = steps_left as int;
        if reporter.full() {
            return Ok(Ghost(l));
        }
        let ordinal = pin.ordinal();
        let ghost p = pages[ordinal];
        proof {
            lemma_leaf_hope(tree, primary, known, target, held, l, ordinal, steps);
            tree.spec_store().lemma_pages_sound(ordinal);
        }
        if steps_left == 0 {
            reporter.problem(
                Some(ordinal.get()),
                "the leaf sibling chain visits more pages than the file contains",
            );
            proof {
                Reporter::lemma_quiet(&r0, &r1, reporter);
            }
            return Ok(Ghost(l));
        }
        steps_left = steps_left - 1;
        let view = match pin.parsed() {
            Ok(view) => view,
            Err(e) => {
                reporter.failed(Some(ordinal.get()), e);
                proof {
                    Reporter::lemma_quiet(&r0, &r1, reporter);
                }
                return Ok(Ghost(l));
            },
        };
        match view.kind() {
            NodeKind::Leaf => {},
            NodeKind::Internal => {
                reporter.problem(Some(ordinal.get()), "the leaf chain reaches an internal page");
                proof {
                    Reporter::lemma_quiet(&r0, &r1, reporter);
                }
                return Ok(Ghost(l));
            },
        }
        if !same_ordinal(view.left_sibling(), expected_left) {
            reporter.problem_words(
                ordinal,
                Words::new("left sibling is ")
                    .page(view.left_sibling())
                    .say(" but the previous page was ")
                    .page(expected_left),
            );
        }
        let ghost r2 = *reporter;
        check_page_digests(tree, &view, ordinal, reporter);
        let ghost r3 = *reporter;
        let ghost list = sound::entry_list(pages, l);
        let ghost was = *overflow;
        proof {
            if r2 == r1 {
                Reporter::lemma_same(&r1);
            }
            Reporter::lemma_quiet(&r0, &r1, &r2);
            Reporter::lemma_quiet(&r0, &r2, &r3);
        }
        let ghost leaf_held = match held {
            Some((s, layout)) => Some((s, layout, l.len() as int)),
            None => None,
        };
        let checked = check_entries(
            tree,
            &view,
            ordinal,
            primary,
            overflow,
            &mut order,
            reporter,
            Ghost(list),
            Ghost(target),
            Ghost(leaf_held),
        );
        let ghost r4 = *reporter;
        proof {
            Reporter::lemma_quiet(&r0, &r3, &r4);
            Reporter::lemma_quiet(&r2, &r3, &r4);
            Reporter::lemma_quiet(&r1, &r2, &r4);
        }
        match checked {
            Ok(true) => {},
            Ok(false) => return Ok(Ghost(l)),
            Err(e) => return Err(e),
        }
        let ghost l0 = l;
        proof {
            assert(l0.push(ordinal).drop_last() =~= l0);
            assert(sound::entry_list(pages, l0.push(ordinal)) == list + sound::entries_of(
                pages,
                ordinal,
            ));
            if Reporter::quiet(&r0, reporter) {
                assert(leaf_checked(e, pages, count, ordinal, known)) by {
                    assert forall|i: int| 0 <= i < node::page_count(p) implies #[trigger]
                        sound::entry_ok(e, pages, count, ordinal, i) by {
                        assert(entry_checked(e, pages, count, ordinal, i, known));
                    }
                }
                lemma_leaf_push(e, pages, count, l0, ordinal, known);
                if primary is None {
                    lemma_gathered_join(
                        *old(overflow),
                        was,
                        *overflow,
                        pages,
                        list,
                        sound::entries_of(pages, ordinal),
                    );
                }
            }
            l = l0.push(ordinal);
        }
        let right = match view.right_sibling() {
            Some(right) => right,
            None => {
                proof {
                    if Reporter::quiet(&r0, reporter) {
                        lemma_leaves_end(tree, leftmost, l, known);
                    }
                }
                return Ok(Ghost(l));
            },
        };
        expected_left = Some(ordinal);
        let next = match walk_page(tree, right, reporter) {
            Some(next) => next,
            None => {
                proof {
                    Reporter::lemma_quiet(&r0, &r4, reporter);
                }
                return Ok(Ghost(l));
            },
        };
        pin = next;
    }
}

/// Whether a tree was found sound down to its leaves, `l`, and what is in the value
/// positions of their entries as well.
pub open spec fn tree_verified(
    tree: &Tree,
    l: Seq<PageOrdinal>,
    known: Option<OverflowPages>,
) -> bool {
    let e = tree.spec_encoding();
    let pages = tree.spec_store().pages();
    let count = tree.spec_store().file().section.count;
    match tree.spec_root() {
        Some(root) => {
            &&& exists|levels: Seq<Seq<PageOrdinal>>|
                levels.last() == l && #[trigger] sound::tree_sound(
                    e,
                    pages,
                    count,
                    tree.spec_store().spec_limits().max_tree_depth as int,
                    root,
                    levels,
                )
            &&& forall|i: int|
                0 <= i < l.len() ==> #[trigger] leaf_checked(e, pages, count, l[i], known)
        },
        None => l.len() == 0,
    }
}

/// The leaves that were walked are those the levels above declare.
proof fn lemma_leaves_declared(tree: &Tree, above: Seq<Seq<PageOrdinal>>, l: Seq<PageOrdinal>)
    requires
        l.len() > 0,
        levels::leaves_start(tree, above, l[0]),
        sound::chain_ok(tree.spec_store().pages(), l),
    ensures
        tree.spec_root() is Some,
        above.len() + 1 <= tree.spec_store().spec_limits().max_tree_depth,
        above.len() == 0 ==> l == seq![tree.spec_root()->Some_0],
        above.len() > 0 ==> above[0] == seq![tree.spec_root()->Some_0] && l == sound::child_list(
            tree.spec_store().pages(),
            above.last(),
        ),
        above.len() > 0 ==> sound::level_ok(
            tree.spec_encoding(),
            tree.spec_store().pages(),
            tree.spec_store().file().section.count,
            above.last(),
        ),
        forall|d: int|
            0 <= d < above.len() - 1 ==> #[trigger] sound::below_ok(
                tree.spec_encoding(),
                tree.spec_store().pages(),
                tree.spec_store().file().section.count,
                above,
                d,
            ),
{
    reveal(levels::leaves_start);
    let pages = tree.spec_store().pages();
    assert(sound::right_ok(pages, l, l.len() - 1));
    assert(levels::whole_chain(pages, l)) by {
        assert forall|i: int| 0 <= i < l.len() - 1 implies #[trigger] sound::right_ok(
            pages,
            l,
            i,
        ) by {}
    }
    if above.len() == 0 {
        assert(sound::right_ok(pages, l, 0));
        assert(l =~= seq![tree.spec_root()->Some_0]);
    } else {
        levels::lemma_chain_unique(pages, l, sound::child_list(pages, above.last()));
    }
}

/// Sound levels over sound leaves are a sound tree.
#[verifier::spinoff_prover]
proof fn lemma_tree_verified(
    tree: &Tree,
    leaf: PageOrdinal,
    l: Seq<PageOrdinal>,
    known: Option<OverflowPages>,
)
    requires
        levels::reached(tree, leaf),
        leaves_walked(tree, leaf, l, known),
    ensures
        tree_verified(tree, l, known),
{
    let e = tree.spec_encoding();
    let pages = tree.spec_store().pages();
    let count = tree.spec_store().file().section.count;
    let above = choose|above: Seq<Seq<PageOrdinal>>| #[trigger]
        levels::leaves_start(tree, above, leaf);
    lemma_leaves_declared(tree, above, l);
    let root = tree.spec_root()->Some_0;
    let all = above.push(l);
    assert(all.last() == l);
    assert forall|d: int| 0 <= d < all.len() - 1 implies #[trigger] sound::below_ok(
        e,
        pages,
        count,
        all,
        d,
    ) by {
        assert(all[d] == above[d]);
        if d < above.len() - 1 {
            assert(sound::below_ok(e, pages, count, above, d));
            assert(all[d + 1] == above[d + 1]);
        } else {
            assert(above[d] == above.last());
        }
    }
    assert(sound::tree_sound(
        e,
        pages,
        count,
        tree.spec_store().spec_limits().max_tree_depth as int,
        root,
        all,
    ));
}

/// Every value of a held tree is on its page or on a blob page.
pub proof fn lemma_values_held(tree: &Tree, s: TreeShape, layout: NodeLayout, target: Target)
    requires
        tree.holds(s, layout),
        tree.spec_store().steady(),
    ensures
        values_held(tree, None, None, s, target),
{
    reveal(values_held);
    let e = tree.spec_encoding();
    let pages = tree.spec_store().pages();
    assert forall|j: int, i: int|
        0 <= j < s.levels[0].len() && 0 <= i < s.levels[0][j].count implies #[trigger] value_held(
        tree,
        None,
        None,
        s.levels[0][j].ordinal,
        i,
        target,
    ) by {
        let o = s.levels[0][j].ordinal;
        assert(model::node_ok(s, e, layout, pages, 0, j));
        assert(model::value_ok(pages, pages[o], i, s.rows[s.levels[0][j].first + i].value));
        if let Some(page) = overflow_of(pages, o, i) {
            tree.spec_store().lemma_pages_sound(page);
        }
    }
}

/// Whether one more tree was counted and entries were, and nothing else.
pub open spec fn tree_counted(a: &Reporter, b: &Reporter, n: int) -> bool {
    let (x, y) = (a.spec_report(), b.spec_report());
    &&& y.pages_checked == x.pages_checked
    &&& y.trees_checked == budget::capped(x.trees_checked + 1)
    &&& y.entries_checked == budget::capped(x.entries_checked + n)
}

/// Walks a whole tree: every internal level, then the leaves.
///
/// In a table, the blob pages of the entries are remembered where there is a set to remember
/// them in. In an index, `primary` is the tree of the table, the set holds what was
/// remembered of it, and each value is checked to be a reference into the table.
///
/// Returns the leaves it went through.
pub fn verify_tree(
    tree: &Tree,
    primary: Option<&Tree>,
    overflow: &mut Option<OverflowPages>,
    label: String,
    reporter: &mut Reporter,
    Ghost(target): Ghost<Target>,
    Ghost(held): Ghost<Option<(TreeShape, NodeLayout)>>,
) -> (r: Result<Ghost<Seq<PageOrdinal>>, Error>)
    requires
        old(reporter).paid(),
        old(reporter).covers(tree),
        primary matches Some(t) ==> old(reporter).covers(t),
        refers_home(primary, tree, *old(overflow)),
        held matches Some((s, layout)) ==> {
            &&& !old(reporter).is_full()
            &&& tree.holds(s, layout)
            &&& tree.spec_store().steady()
            &&& values_held(tree, primary, known_pages(primary, *old(overflow)), s, target)
        },
    ensures
        Reporter::grew(old(reporter), final(reporter)),
        known_pages(primary, *final(overflow)) == known_pages(primary, *old(overflow)),
        same_home(*old(overflow), *final(overflow)),
        held is Some || tree.spec_root() is None ==> Reporter::calm(
            old(reporter),
            final(reporter),
        ),
        r matches Ok(l) ==> (Reporter::quiet(old(reporter), final(reporter)) ==> {
            let list = sound::entry_list(tree.spec_store().pages(), l@);
            &&& tree_verified(tree, l@, known_pages(primary, *final(overflow)))
            &&& tree_counted(old(reporter), final(reporter), list.len() as int)
            &&& primary is None ==> gathered(
                *old(overflow),
                *final(overflow),
                tree.spec_store().pages(),
                list,
            )
        }),
        r matches Ok(l) ==> (final(reporter).spec_failure() is None ==> (held matches Some(
            (s, layout),
        ) ==> tree_counted(old(reporter), final(reporter), s.rows.len() as int) && l@ == leaf_pages(
            s,
            s.levels[0].len() as int,
        ))),
        r matches Err(e) ==> tree.walk_denied(e),
{
    let ghost r0 = *reporter;
    proof {
        Reporter::lemma_same(reporter);
        lemma_gathered_none(*overflow, tree.spec_store().pages());
    }
    reporter.relabel(label);
    let ghost r1 = *reporter;
    reporter.count_tree();
    let ghost r2 = *reporter;
    proof {
        Reporter::lemma_quiet(&r0, &r1, &r2);
    }
    let mut previous = match Previous::new(tree) {
        Ok(previous) => previous,
        Err(e) => return Err(e),
    };
    let reached = verify_internal_levels(tree, &mut previous, reporter, Ghost(held));
    let ghost r3 = *reporter;
    proof {
        Reporter::lemma_quiet(&r0, &r2, &r3);
    }
    let leftmost = match reached {
        Ok(Some(leftmost)) => leftmost,
        Ok(None) => return Ok(Ghost(Seq::empty())),
        Err(e) => return Err(e),
    };
    let walked = walk_leaves(
        tree,
        leftmost,
        previous,
        primary,
        overflow,
        reporter,
        Ghost(target),
        Ghost(held),
    );
    proof {
        Reporter::lemma_quiet(&r0, &r3, reporter);
        Reporter::lemma_quiet(&r2, &r3, reporter);
        if let Ok(l) = walked {
            if Reporter::quiet(&r0, reporter) {
                lemma_tree_verified(tree, leftmost, l@, known_pages(primary, *overflow));
            }
        }
    }
    walked
}

} // verus!

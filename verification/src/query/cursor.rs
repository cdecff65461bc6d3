//! Cursors.
//!
//! A cursor holds exactly one leaf page at a time (plus the blob page of the current
//! entry, when the value overflowed). Nothing accumulates: scanning a table of any size
//! costs the pages currently under the cursor, not the result set.

use std::ops::Range;
use std::sync::Arc;

use vstd::prelude::*;
use vstd::slice::slice_subrange;

use super::range::{self, Bound, Ends, KeyRange};
use super::scan::{self, Spot};
use crate::btree::{self, paths, Tree};
use crate::budget::{self, Budget, Charge, BUFFER_OVERHEAD};
use crate::encoding::{self, KeyEncoding, KeyOrder, SharedEncoding};
use crate::error::Error;
use crate::format::node::{self, LeafValue, NodeKind, NodeLayout};
use crate::format::PageOrdinal;
use crate::model::{self, Row, TreeShape};
use crate::page::{PagePin, ValueGuard};

verus! {

broadcast use crate::format::group_format;

/// Iteration order.
#[derive(Debug, Clone, Copy, PartialEq, Eq, Structural)]
pub enum Order {
    /// Smallest key first.
    Ascending,
    /// Largest key first.
    Descending,
}

impl Order {
    /// Whether the smallest key comes first.
    pub open spec fn asc(self) -> bool {
        self == Order::Ascending
    }
}

/// What an owned copy of one bound costs, with `extra` bytes the caller will append.
pub open spec fn bound_price(b: Bound<Seq<u8>>, extra: u64) -> int {
    match range::bound_key_of(b) {
        None => 0,
        Some(k) => k.len() + extra + BUFFER_OVERHEAD,
    }
}

/// What owned copies of two bounds cost together.
pub open spec fn bounds_price(lower: Bound<Seq<u8>>, upper: Bound<Seq<u8>>, extra: u64) -> u64 {
    budget::capped(bound_price(lower, extra) + bound_price(upper, extra))
}

fn bound_cost(bound: &Bound<&[u8]>, extra: u64) -> (r: u64)
    ensures
        r == budget::capped(bound_price(range::bound_of_slice(*bound), extra)),
{
    match range::borrowed_key(bound) {
        None => 0,
        Some(k) => (k.len() as u64).saturating_add(extra).saturating_add(BUFFER_OVERHEAD),
    }
}

/// Reserves what owned copies of these bounds will cost, before they are made.
///
/// A bound is a caller's key and can be any length, so a query that copies one is spending
/// the caller's budget and has to say so first. `extra` covers bytes the caller appends to
/// each bound, such as the record id of a non-unique index key.
pub(crate) fn reserve_bounds(
    tree: &Tree,
    lower: Bound<&[u8]>,
    upper: Bound<&[u8]>,
    extra: u64,
) -> (r: Result<Charge, Error>)
    ensures
        match r {
            Ok(c) => c.owner() == tree.spec_store().spec_budget() && c.spec_bytes() == bounds_price(
                range::bound_of_slice(lower),
                range::bound_of_slice(upper),
                extra,
            ),
            Err(e) => tree.spec_store().lacks(
                bounds_price(range::bound_of_slice(lower), range::bound_of_slice(upper), extra),
                e,
            ),
        },
{
    let wanted = bound_cost(&lower, extra).saturating_add(bound_cost(&upper, extra));
    tree.store().reserve(wanted)
}

/// Grows `charge` until it covers `bytes` plus one allocation header.
///
/// For the small buffers a cursor keeps: a rebuilt key, or the index key a secondary
/// cursor hands back. Each is bounded by one key, but a cursor is a caller's object and
/// nothing stops a caller from holding many of them, so they are charged like anything
/// else. The charge never shrinks.
pub(crate) fn charge_at_least(tree: &Tree, charge: &mut Charge, bytes: usize) -> (r: Result<
    (),
    Error,
>)
    requires
        old(charge).owner() == tree.spec_store().spec_budget(),
    ensures
        final(charge).owner() == old(charge).owner(),
        match r {
            Ok(_) => final(charge).spec_bytes() == (if budget::capped(bytes + BUFFER_OVERHEAD)
                > old(charge).spec_bytes() {
                budget::capped(bytes + BUFFER_OVERHEAD)
            } else {
                old(charge).spec_bytes()
            }),
            Err(e) => tree.spec_store().lacks(
                (budget::capped(bytes + BUFFER_OVERHEAD) - old(charge).spec_bytes()) as u64,
                e,
            ) && tree.spec_store().short_of(budget::capped(bytes + BUFFER_OVERHEAD), e) && final(charge).spec_bytes()
                == old(charge).spec_bytes() && budget::capped(bytes + BUFFER_OVERHEAD)
                > old(charge).spec_bytes(),
        },
{
    let wanted = (bytes as u64).saturating_add(BUFFER_OVERHEAD);
    let held = charge.bytes();
    if wanted <= held {
        return Ok(());
    }
    match tree.store().reserve(wanted - held) {
        Ok(more) => {
            charge.absorb(more);
            Ok(())
        },
        Err(e) => Err(e),
    }
}

/// Where the current entry's key bytes live.
#[derive(Debug, Clone, Copy)]
enum KeySource {
    /// A range inside the current leaf page.
    Page { start: usize, end: usize },
    /// Rebuilt from an exact digest into the cursor's own buffer.
    Rebuilt,
}

/// The entry a cursor is on.
struct Materialized {
    key: KeySource,
    value_start: usize,
    value_end: usize,
    /// The page of a value that does not live on the leaf.
    blob: Option<PagePin>,
}

/// The key an entry of a page stands for.
pub open spec fn stored_key(e: SharedEncoding, p: Seq<u8>, i: int) -> Option<Seq<u8>> {
    if node::page_layout(p).omitted_keys {
        e.inner.rebuilt(node::page_digests(p)[i])
    } else {
        Some(node::entry_key_at(p, i))
    }
}

/// The value an entry of a leaf has.
pub open spec fn stored_value(t: &Tree, p: Seq<u8>, i: int) -> Option<Seq<u8>> {
    match node::leaf_entry_at(p, i) {
        Some(entry) => btree::entry_value(&*t.spec_store(), p, entry),
        None => None,
    }
}

/// What an entry of a held tree is: the key and the value of its row.
pub proof fn lemma_entry_is_row(
    t: &Tree,
    s: TreeShape,
    layout: NodeLayout,
    o: PageOrdinal,
    i: int,
    r: int,
)
    requires
        t.holds(s, layout),
        paths::entry_is_row(s, o, i, r),
    ensures
        ({
            let p = t.spec_store().pages()[o];
            &&& 0 <= r < s.rows.len()
            &&& i < node::page_count(p)
            &&& node::page_ok(p)
            &&& node::page_kind(p) == NodeKind::Leaf
            &&& node::leaf_entry_at(p, i) is Some
            &&& stored_key(t.spec_encoding(), p, i) == Some(s.rows[r].key)
            &&& stored_value(t, p, i) == Some(s.rows[r].value)
            &&& node::page_layout(p).omitted_keys ==> t.spec_encoding().inner.rebuilt_len() is Some
        }),
{
    let j = choose|j: int|
        #[trigger] paths::leaf_at(s, o, j) && 0 <= i < s.levels[0][j].count && r
            == s.levels[0][j].first + i;
    let (e, pages, root) = (t.spec_encoding(), t.spec_store().pages(), t.spec_root()->Some_0);
    scan::lemma_leaf(t, s, layout, o, j);
    let p = pages[o];
    let keys = model::node_keys(s, 0, j);
    assert(model::node_ok(s, e, layout, pages, 0, j));
    assert(keys[i] == s.rows[r].key);
    assert(model::value_ok(pages, p, i, s.rows[r].value));
    assert(node::page_digests(p)[i] == e.inner.digest_of(keys[i]));
    if !layout.omitted_keys {
        assert(node::entry_key_at(p, i) == keys[i]);
    }
    assert(e.inner.accepts(keys[i]));
}

impl Materialized {
    /// Whether the ranges are inside the pages they are of.
    spec fn inside(&self, leaf: Seq<u8>) -> bool {
        &&& self.key matches KeySource::Page { start, end } ==> start <= end <= leaf.len()
        &&& self.value_start <= self.value_end <= self.value_page(leaf).len()
    }

    spec fn value_page(&self, leaf: Seq<u8>) -> Seq<u8> {
        match self.blob {
            Some(b) => b@,
            None => leaf,
        }
    }

    spec fn key_in(&self, leaf: Seq<u8>, buf: Seq<u8>) -> Seq<u8> {
        match self.key {
            KeySource::Page { start, end } => leaf.subrange(start as int, end as int),
            KeySource::Rebuilt => buf,
        }
    }

    spec fn value_in(&self, leaf: Seq<u8>) -> Seq<u8> {
        self.value_page(leaf).subrange(self.value_start as int, self.value_end as int)
    }
}

/// Reads the entry a spot is on.
fn materialize(tree: &Tree, spot: &Spot, key_buf: &mut Vec<u8>, key_charge: &mut Charge) -> (r:
    Result<Materialized, Error>)
    requires
        tree.pins(spot.pin),
        old(key_charge).owner() == tree.spec_store().spec_budget(),
    ensures
        final(key_charge).owner() == old(key_charge).owner(),
        match r {
            Ok(m) => {
                &&& m.inside(spot.pin@)
                &&& spot.index < node::page_count(spot.pin@)
                &&& stored_key(tree.spec_encoding(), spot.pin@, spot.index as int) == Some(
                    m.key_in(spot.pin@, final(key_buf)@),
                )
                &&& stored_value(tree, spot.pin@, spot.index as int) == Some(m.value_in(spot.pin@))
                &&& node::leaf_entry_at(spot.pin@, spot.index as int) matches Some(entry) && (
                m.blob is Some <==> entry.value is Overflow)
            },
            Err(e) => (tree.fault(e) || tree.key_denied_on(spot.pin@, spot.index as int, e)) && (
            tree.spec_store().excused(e) || !tree.spec_store().steady() || !{
                &&& node::page_ok(spot.pin@)
                &&& node::page_kind(spot.pin@) == NodeKind::Leaf
                &&& spot.index < node::page_count(spot.pin@)
                &&& node::leaf_entry_at(spot.pin@, spot.index as int) is Some
                &&& stored_key(tree.spec_encoding(), spot.pin@, spot.index as int) is Some
                &&& stored_value(tree, spot.pin@, spot.index as int) is Some
                &&& node::page_layout(spot.pin@).omitted_keys
                    ==> tree.spec_encoding().inner.rebuilt_len() is Some
            }),
        },
{
    let ghost p = spot.pin@;
    let view = match spot.pin.parsed() {
        Ok(v) => v,
        Err(e) => return Err(e),
    };
    let index = spot.index;
    let entry = match view.leaf_entry(index) {
        Ok(entry) => entry,
        Err(e) => return Err(e),
    };
    let key = if view.layout().omitted_keys {
        // Reserved before the rebuild writes anything. The reconciliation afterwards is the
        // backstop for an encoding that wrote more than it said it would.
        let capacity = match tree.rebuilt_key_capacity() {
            Ok(n) => n,
            Err(e) => return Err(e),
        };
        match charge_at_least(tree, key_charge, capacity) {
            Ok(_) => {},
            Err(e) => return Err(e),
        }
        match tree.rebuild_key(&view, index, key_buf) {
            Ok(_) => {},
            Err(e) => return Err(e),
        }
        match charge_at_least(tree, key_charge, key_buf.len()) {
            Ok(_) => {},
            Err(e) => {
                *key_buf = Vec::new();
                return Err(e);
            },
        }
        KeySource::Rebuilt
    } else {
        KeySource::Page { start: entry.key_offset, end: entry.key_offset + entry.key_len }
    };
    match entry.value {
        LeafValue::Inline { offset, len } => Ok(
            Materialized { key, value_start: offset, value_end: offset + len, blob: None },
        ),
        LeafValue::Overflow { page } => match tree.store().blob(page) {
            Ok((pin, range)) => Ok(
                Materialized {
                    key,
                    value_start: range.start,
                    value_end: range.end,
                    blob: Some(pin),
                },
            ),
            Err(e) => {
                proof {
                    assert(node::leaf_entry_at(p, index as int) == Some(entry));
                    assert(btree::names(p, page));
                    tree.lemma_knows(spot.pin.spec_ordinal(), page);
                    assert(tree.fault_at(page, e));
                }
                Err(e)
            },
        },
    }
}

/// Where a cursor stands.
enum State {
    /// Before the first entry.
    Fresh,
    /// On an entry.
    On(Spot),
    /// Past the last one.
    Done,
}

/// Where a cursor stands.
pub enum Place {
    /// Before the first entry.
    Before,
    /// On an entry of a leaf.
    On { page: PageOrdinal, index: int },
    /// Past the last one.
    Past,
}

impl State {
    spec fn place(&self) -> Place {
        match self {
            State::Fresh => Place::Before,
            State::On(spot) => Place::On {
                page: spot.pin.spec_ordinal(),
                index: spot.index as int,
            },
            State::Done => Place::Past,
        }
    }

    /// Whether this is somewhere a scan of a tree can be.
    spec fn ok(&self, t: &Tree, ends: Ends, asc: bool) -> bool {
        &&& !(self is Done) ==> !ends.empty
        &&& *self matches State::On(spot) ==> {
            &&& scan::spot_ok(t, ends, asc, spot)
            &&& scan::live(asc, spot)
            &&& ends.accepted(t.spec_encoding())
            &&& forall|s: TreeShape, layout: NodeLayout| #[trigger]
                t.holds(s, layout) ==> on_selected(
                    t,
                    ends,
                    s,
                    spot.pin.spec_ordinal(),
                    spot.index as int,
                )
        }
    }
}

impl Clone for State {
    fn clone(&self) -> (r: Self)
        ensures
            r == *self,
    {
        match self {
            State::Fresh => State::Fresh,
            State::On(spot) => State::On(spot.clone()),
            State::Done => State::Done,
        }
    }
}

/// Whether an entry is a row of a tree that is in a range.
pub open spec fn on_selected(t: &Tree, ends: Ends, s: TreeShape, o: PageOrdinal, i: int) -> bool {
    exists|r: int| #[trigger]
        paths::entry_is_row(s, o, i, r) && 0 <= r < s.rows.len() && ends.selects(
            t.spec_encoding(),
            s.rows[r].key,
        )
}

/// Everything that says where a cursor stands, so a failed step can be undone.
///
/// Public inside the crate because a secondary cursor steps this one and can then fail on
/// its own account, resolving the reference the entry points at.
pub struct Position {
    state: State,
}

impl Position {
    /// Where the cursor stood.
    pub closed spec fn place(&self) -> Place {
        self.state.place()
    }

    /// Whether this is a position a scan of a tree can be in.
    pub closed spec fn of(&self, t: &Tree, ends: Ends, asc: bool) -> bool {
        self.state.ok(t, ends, asc)
    }
}

/// A cursor over one B+Tree.
///
/// [`Cursor::advance`] moves to the next entry and [`Cursor::current`] borrows it. The
/// borrow keeps the cursor immobile, so a reference can never outlive the page it points
/// into; [`EntryRef::to_guard`] turns it into an owning [`ValueGuard`] when a value has to
/// be kept.
pub struct Cursor {
    tree: Arc<Tree>,
    order: Order,
    range: KeyRange,
    state: State,
    current: Option<Materialized>,
    key_buf: Vec<u8>,
    /// What `key_buf` costs.
    key_charge: Charge,
    /// The memory the owned copy of `range` takes, held for as long as the cursor is.
    bounds_charge: Charge,
}

impl Cursor {
    /// The tree the cursor reads.
    pub closed spec fn spec_tree(&self) -> Arc<Tree> {
        self.tree
    }

    /// Iteration order.
    pub closed spec fn spec_order(&self) -> Order {
        self.order
    }

    /// The range the cursor covers.
    pub closed spec fn ends(&self) -> Ends {
        self.range@
    }

    /// Where the cursor stands.
    pub closed spec fn place(&self) -> Place {
        self.state.place()
    }

    /// The key and the value of the entry the cursor is on.
    pub closed spec fn entry(&self) -> Option<Row> {
        match (self.state, self.current) {
            (State::On(spot), Some(m)) => Some(
                Row { key: m.key_in(spot.pin@, self.key_buf@), value: m.value_in(spot.pin@) },
            ),
            _ => None,
        }
    }

    /// What the owned copies of the bounds are charged.
    pub closed spec fn spec_bounds_charge(&self) -> Charge {
        self.bounds_charge
    }

    /// Whether the cursor is in a state its methods keep.
    pub closed spec fn wf(&self) -> bool {
        &&& self.key_charge.owner() == self.tree.spec_store().spec_budget()
        &&& self.state.ok(&*self.tree, self.range@, self.order.asc())
        &&& self.current matches Some(m) ==> {
            &&& self.state matches State::On(spot) && m.inside(spot.pin@) && (
            node::leaf_entry_at(spot.pin@, spot.index as int) matches Some(entry) && (
            m.blob is Some <==> entry.value is Overflow))
        }
    }

    /// A cursor over the keys of a range.
    ///
    /// The bounds are checked before they are compared: comparing two keys the encoding
    /// cannot read reports what it makes of the bytes, which for a caller's mistake reads
    /// as damage to the file rather than as the wrong length of key.
    pub(crate) fn new(tree: Arc<Tree>, bounds_charge: Charge, range: KeyRange, order: Order) -> (r:
        Result<Cursor, Error>)
        ensures
            match r {
                Ok(c) => Cursor::built(c, tree, range@, order, bounds_charge) && (range@.empty || (
                range@.well_formed(tree.spec_encoding()) && range@.comparable(
                    tree.spec_encoding(),
                ))),
                Err(e) => !range@.empty && !(range@.well_formed(tree.spec_encoding())
                    && range@.comparable(tree.spec_encoding())) && range::refused(
                    tree.spec_encoding(),
                    range@,
                    e,
                ),
            },
    {
        Cursor::build(tree, bounds_charge, range, order, true)
    }

    /// A cursor whose bounds are byte prefixes rather than keys.
    ///
    /// A prefix is shorter than a key, so it is not validated as one. The encodings that
    /// allow prefix queries order keys by their bytes, which is what lets a short prefix
    /// sit in the same order as the keys it selects.
    pub(crate) fn for_prefix(
        tree: Arc<Tree>,
        bounds_charge: Charge,
        range: KeyRange,
        order: Order,
    ) -> (r: Result<Cursor, Error>)
        ensures
            match r {
                Ok(c) => Cursor::built(c, tree, range@, order, bounds_charge) && (range@.empty
                    || range@.comparable(tree.spec_encoding())),
                Err(e) => !range@.empty && !range@.comparable(tree.spec_encoding())
                    && range::out_of_order(tree.spec_encoding(), range@, e),
            },
    {
        Cursor::build(tree, bounds_charge, range, order, false)
    }

    /// Whether a cursor is a new one over a range of a tree.
    pub open spec fn built(c: Cursor, tree: Arc<Tree>, ends: Ends, order: Order, charge: Charge) -> bool {
        &&& c.wf()
        &&& c.spec_tree() == tree
        &&& c.spec_order() == order
        &&& c.ends() == ends
        &&& c.spec_bounds_charge() == charge
        &&& c.place() == (if ends.empty {
            Place::Past
        } else {
            Place::Before
        })
        &&& c.entry() is None
    }

    fn build(
        tree: Arc<Tree>,
        bounds_charge: Charge,
        range: KeyRange,
        order: Order,
        validate_bounds: bool,
    ) -> (r: Result<Cursor, Error>)
        ensures
            ({
                let e = tree.spec_encoding();
                let valid = (validate_bounds ==> range@.well_formed(e)) && range@.comparable(e);
                match r {
                    Ok(c) => Cursor::built(c, tree, range@, order, bounds_charge) && (range@.empty
                        || valid),
                    Err(err) => !range@.empty && !valid && if validate_bounds {
                        range::refused(e, range@, err)
                    } else {
                        range::out_of_order(e, range@, err)
                    },
                }
            }),
    {
        let key_charge = match tree.store().budget().try_reserve(0) {
            Ok(c) => c,
            Err(e) => return Err(e),
        };
        if range.is_empty() {
            return Ok(
                Cursor {
                    tree,
                    order,
                    range,
                    state: State::Done,
                    current: None,
                    key_buf: Vec::new(),
                    key_charge,
                    bounds_charge,
                },
            );
        }
        let lower = range::bound_key(range.lower_bound());
        let upper = range::bound_key(range.upper_bound());
        if validate_bounds {
            if let Some(k) = lower {
                match tree.encoding().inner.validate_key(k) {
                    Ok(_) => {},
                    Err(e) => return Err(e),
                }
            }
            if let Some(k) = upper {
                match tree.encoding().inner.validate_key(k) {
                    Ok(_) => {},
                    Err(e) => return Err(e),
                }
            }
        }
        if let (Some(lo), Some(hi)) = (lower, upper) {
            match tree.encoding().order(lo, hi) {
                Ok(KeyOrder::Greater) => {
                    return Err(Error::invalid("range lower bound sorts above its upper bound"));
                },
                Ok(_) => {},
                Err(e) => return Err(e),
            }
        }
        Ok(
            Cursor {
                tree,
                order,
                range,
                state: State::Fresh,
                current: None,
                key_buf: Vec::new(),
                key_charge,
                bounds_charge,
            },
        )
    }
}

/// What a step of a scan does, in one tree the pages hold.
pub open spec fn stepped(old: Cursor, new: Cursor, more: bool, s: TreeShape) -> bool {
    let t = &*old.spec_tree();
    let (ends, asc) = (old.ends(), old.spec_order().asc());
    let e = t.spec_encoding();
    if more {
        &&& new.place() matches Place::On { page, index }
        &&& on_row(new, s)
        &&& match old.place() {
            // The first row in the range.
            Place::Before => scan::start_at(t, ends, asc, s, page, index),
            // The row after the last one.
            Place::On { page: from, index: at } => forall|r: int| #[trigger]
                paths::entry_is_row(s, from, at, r) ==> paths::entry_is_row(
                    s,
                    page,
                    index,
                    scan::onward(asc, r),
                ),
            Place::Past => false,
        }
    } else {
        &&& new.place() is Past
        &&& match old.place() {
            Place::Before => forall|x: int|
                0 <= x < s.rows.len() ==> !ends.selects(e, (#[trigger] s.rows[x]).key),
            Place::On { page: from, index: at } => forall|r: int, x: int|
                #![trigger paths::entry_is_row(s, from, at, r), s.rows[x]]
                paths::entry_is_row(s, from, at, r) && 0 <= x < s.rows.len() && scan::past(
                    asc,
                    r,
                    x,
                ) ==> !ends.selects(e, s.rows[x].key),
            Place::Past => true,
        }
    }
}

/// Whether a cursor is on a row of a tree that is in its range, and gives it out.
pub open spec fn on_row(c: Cursor, s: TreeShape) -> bool {
    &&& c.place() matches Place::On { page, index }
    &&& exists|r: int| #[trigger]
        paths::entry_is_row(s, page, index, r) && 0 <= r < s.rows.len() && c.ends().selects(
            c.spec_tree().spec_encoding(),
            s.rows[r].key,
        ) && c.entry() == Some(s.rows[r])
}

/// Whether a step went where the links of the leaves lead, whatever the pages hold: to a leaf
/// without leaving one out, or to the end, which is where the tree ends too or where the far
/// bound was met.
pub open spec fn linked_step(old: Cursor, new: Cursor, more: bool) -> bool {
    let (t, ends, asc) = (&*old.spec_tree(), old.ends(), old.spec_order().asc());
    let to = match new.place() {
        Place::On { page, .. } if more => Some(page),
        _ => None,
    };
    match old.place() {
        Place::Before => scan::begun(t, ends, asc, to),
        Place::On { page: from, .. } => match to {
            Some(o) => scan::walked(t, asc, from, o),
            None => scan::ran_out(t, ends, asc, from),
        },
        Place::Past => true,
    }
}

/// Whether a cursor gives out the entry of the page where it stands, whatever the pages hold.
pub open spec fn on_entry(c: Cursor) -> bool {
    &&& c.place() matches Place::On { page, index }
    &&& c.entry() matches Some(row)
    &&& c.spec_tree().spec_root() is Some
    &&& c.spec_tree().spec_store().pages().contains_key(page)
    &&& ({
        let p = c.spec_tree().spec_store().pages()[page];
        &&& 0 <= index < node::page_count(p)
        &&& stored_key(c.spec_tree().spec_encoding(), p, index) == Some(row.key)
        &&& stored_value(&*c.spec_tree(), p, index) == Some(row.value)
    })
}

/// What [`Cursor::advance`] does: a step, or nothing where it fails.
pub open spec fn advanced(old: Cursor, new: Cursor, r: Result<bool, Error>) -> bool {
    &&& new.spec_tree() == old.spec_tree()
    &&& new.spec_order() == old.spec_order()
    &&& new.ends() == old.ends()
    &&& new.spec_bounds_charge() == old.spec_bounds_charge()
    &&& match r {
        Ok(more) => {
            &&& more == (new.entry() is Some)
            &&& more == (new.place() is On)
            &&& !more ==> new.place() is Past
            &&& old.place() is Past ==> !more
            &&& linked_step(old, new, more)
            &&& more ==> on_entry(new)
            &&& forall|s: TreeShape, layout: NodeLayout| #[trigger]
                old.spec_tree().holds(s, layout) ==> stepped(old, new, more, s)
        },
        Err(e) => {
            &&& new.place() == old.place()
            &&& !(old.place() is Past)
            &&& new.entry() is None
            &&& scan::walk_failure(&*old.spec_tree(), old.ends(), e)
        },
    }
}

impl Cursor {
    /// Iteration order.
    pub fn order(&self) -> (r: Order)
        ensures
            r == self.spec_order(),
    {
        self.order
    }

    /// The tree the cursor reads.
    pub(crate) fn tree(&self) -> (r: &Arc<Tree>)
        ensures
            *r == self.spec_tree(),
    {
        &self.tree
    }

    /// The budget the cursor's pages and buffers are charged to.
    pub fn budget(&self) -> (r: &Arc<Budget>)
        ensures
            *r == self.spec_tree().spec_store().spec_budget(),
    {
        self.tree.store().budget()
    }

    /// Moves to the next entry. Returns `false` once the range is exhausted.
    ///
    /// Where the step fails the cursor stays where it was. Reading an entry can fail for a
    /// reason the caller can do something about, `BudgetExceeded` above all, and a cursor
    /// that had already moved would hand back the row after the one that failed and lose
    /// the one in between.
    pub fn advance(&mut self) -> (r: Result<bool, Error>)
        requires
            old(self).wf(),
        ensures
            final(self).wf(),
            advanced(*old(self), *final(self), r),
    {
        self.current = None;
        let ghost before = *old(self);
        let ghost (t, ends) = (&*before.tree, before.range@);
        let asc = match self.order {
            Order::Ascending => true,
            Order::Descending => false,
        };
        let found = match &self.state {
            State::Done => {
                return Ok(false);
            },
            State::Fresh => {
                let steps = self.tree.store().page_count().saturating_add(1);
                scan::first_spot(&*self.tree, &self.range, asc, steps)
            },
            State::On(spot) => scan::step(&*self.tree, &self.range, asc, spot),
        };
        let next = match found {
            Ok(Some(next)) => next,
            Ok(None) => {
                proof {
                    assert forall|s: TreeShape, layout: NodeLayout| #[trigger]
                        t.holds(s, layout) implies ended(before, s) by {
                        lemma_ended(before, s, layout);
                    }
                }
                self.state = State::Done;
                return Ok(false);
            },
            Err(e) => return Err(e),
        };
        let ghost o = next.pin.spec_ordinal();
        proof {
            assert forall|s: TreeShape, layout: NodeLayout| #[trigger]
                t.holds(s, layout) implies on_selected(t, ends, s, o, next.index as int) by {
                lemma_next_selected(before, next, s, layout);
            }
        }
        let m = match materialize(&*self.tree, &next, &mut self.key_buf, &mut self.key_charge) {
            Ok(m) => m,
            Err(e) => {
                proof {
                    assert forall|s: TreeShape, layout: NodeLayout| #[trigger]
                        t.holds(s, layout) implies t.spec_store().excused(e) || !t.spec_store().steady() by {
                        let r = choose|r: int| #[trigger]
                            paths::entry_is_row(s, o, next.index as int, r) && 0 <= r
                                < s.rows.len();
                        assert(on_selected(t, ends, s, o, next.index as int));
                        lemma_entry_is_row(t, s, layout, o, next.index as int, r);
                    }
                }
                return Err(e);
            },
        };
        self.state = State::On(next);
        self.current = Some(m);
        proof {
            assert forall|s: TreeShape, layout: NodeLayout| #[trigger]
                t.holds(s, layout) implies stepped(before, *self, true, s) by {
                assert(on_selected(t, ends, s, o, next.index as int));
                let r = choose|r: int| #[trigger]
                    paths::entry_is_row(s, o, next.index as int, r) && 0 <= r < s.rows.len()
                        && ends.selects(t.spec_encoding(), s.rows[r].key);
                lemma_entry_is_row(t, s, layout, o, next.index as int, r);
                assert(self.entry() == Some(s.rows[r]));
                assert(self.place() == Place::On { page: o, index: next.index as int });
                assert(self.ends() == ends && self.spec_tree() == before.tree);
                let c = *self;
                assert(c.place() matches Place::On { page, index } && page == o && index
                    == next.index);
                assert(paths::entry_is_row(s, o, next.index as int, r));
                assert(c.ends().selects(c.spec_tree().spec_encoding(), s.rows[r].key));
                assert(c.entry() == Some(s.rows[r]));
                assert(on_row(c, s));
            }
        }
        Ok(true)
    }

    /// Where the cursor stands.
    pub(crate) fn position(&self) -> (r: Position)
        requires
            self.wf(),
        ensures
            r.place() == self.place(),
            r.of(&*self.spec_tree(), self.ends(), self.spec_order().asc()),
    {
        Position { state: self.state.clone() }
    }

    /// Puts the cursor back.
    pub(crate) fn restore(&mut self, saved: Position)
        requires
            old(self).wf(),
            saved.of(&*old(self).spec_tree(), old(self).ends(), old(self).spec_order().asc()),
        ensures
            final(self).wf(),
            final(self).spec_tree() == old(self).spec_tree(),
            final(self).spec_order() == old(self).spec_order(),
            final(self).ends() == old(self).ends(),
            final(self).spec_bounds_charge() == old(self).spec_bounds_charge(),
            final(self).place() == saved.place(),
            final(self).entry() is None,
    {
        self.current = None;
        self.state = saved.state;
    }

    /// The entry the cursor is on, if any.
    pub fn current(&self) -> (r: Option<EntryRef<'_>>)
        requires
            self.wf(),
        ensures
            match r {
                Some(entry) => {
                    &&& self.entry() == Some(
                        Row { key: entry.spec_key(), value: entry.spec_value() },
                    )
                    &&& self.place() matches Place::On { page, index } && entry.spec_page() == page
                        && (node::leaf_entry_at(
                        self.spec_tree().spec_store().pages()[page],
                        index,
                    ) matches Some(e) && (entry.spec_overflow() <==> e.value is Overflow))
                },
                None => self.entry() is None,
            },
    {
        match (&self.state, &self.current) {
            (State::On(spot), Some(m)) => {
                let key = match m.key {
                    KeySource::Page { start, end } => slice_subrange(spot.pin.bytes(), start, end),
                    KeySource::Rebuilt => self.key_buf.as_slice(),
                };
                let (value_pin, overflow) = match &m.blob {
                    Some(b) => (b, true),
                    None => (&spot.pin, false),
                };
                Some(
                    EntryRef {
                        key,
                        value_pin,
                        start: m.value_start,
                        end: m.value_end,
                        page: spot.pin.ordinal(),
                        overflow,
                    },
                )
            },
            _ => None,
        }
    }
}

/// Whether nothing in the range comes after where a cursor stands.
pub open spec fn ended(c: Cursor, s: TreeShape) -> bool {
    let (ends, asc) = (c.ends(), c.spec_order().asc());
    let e = c.spec_tree().spec_encoding();
    match c.place() {
        Place::Before => forall|x: int|
            0 <= x < s.rows.len() ==> !ends.selects(e, (#[trigger] s.rows[x]).key),
        Place::On { page, index } => forall|r: int, x: int|
            #![trigger paths::entry_is_row(s, page, index, r), s.rows[x]]
            paths::entry_is_row(s, page, index, r) && 0 <= x < s.rows.len() && scan::past(
                asc,
                r,
                x,
            ) ==> !ends.selects(e, s.rows[x].key),
        Place::Past => true,
    }
}

/// The row past the far bound ends a scan.
proof fn lemma_ended(c: Cursor, s: TreeShape, layout: NodeLayout)
    requires
        c.wf(),
        c.tree.holds(s, layout),
        c.state is Fresh ==> forall|x: int|
            0 <= x < s.rows.len() ==> !(scan::reached(
                c.tree.spec_encoding(),
                c.range@,
                c.order.asc(),
                (#[trigger] s.rows[x]).key,
            ) && scan::inside(
                c.tree.spec_encoding(),
                c.range@,
                c.order.asc(),
                s.rows[x].key,
            )),
        c.state matches State::On(spot) ==> forall|r: int| #[trigger]
            paths::entry_is_row(s, spot.pin.spec_ordinal(), spot.index as int, r) && 0
                <= scan::onward(c.order.asc(), r) < s.rows.len() ==> !scan::inside(
                c.tree.spec_encoding(),
                c.range@,
                c.order.asc(),
                s.rows[scan::onward(c.order.asc(), r)].key,
            ),
    ensures
        ended(c, s),
{
    let (e, ends, asc) = (c.tree.spec_encoding(), c.range@, c.order.asc());
    if let State::On(spot) = c.state {
        let (o, i) = (spot.pin.spec_ordinal(), spot.index as int);
        assert forall|r: int, x: int|
            #![trigger paths::entry_is_row(s, o, i, r), s.rows[x]]
            paths::entry_is_row(s, o, i, r) && 0 <= x < s.rows.len() && scan::past(
                asc,
                r,
                x,
            ) implies !ends.selects(e, s.rows[x].key) by {
            lemma_entry_is_row(&*c.tree, s, layout, o, i, r);
            let n = scan::onward(asc, r);
            if n != x {
                scan::lemma_bounds_cut(e, ends, asc, s.rows, n, x);
            }
        }
    }
}

/// The row a step reaches is in the range.
proof fn lemma_next_selected(c: Cursor, next: Spot, s: TreeShape, layout: NodeLayout)
    requires
        c.wf(),
        c.tree.holds(s, layout),
        scan::spot_ok(&*c.tree, c.range@, c.order.asc(), next),
        scan::live(c.order.asc(), next),
        !(c.state is Done),
        c.state is Fresh ==> scan::start_at(
            &*c.tree,
            c.range@,
            c.order.asc(),
            s,
            next.pin.spec_ordinal(),
            next.index as int,
        ),
        c.state matches State::On(spot) ==> forall|r: int| #[trigger]
            paths::entry_is_row(s, spot.pin.spec_ordinal(), spot.index as int, r)
                ==> paths::entry_is_row(
                s,
                next.pin.spec_ordinal(),
                next.index as int,
                scan::onward(c.order.asc(), r),
            ),
    ensures
        on_selected(&*c.tree, c.range@, s, next.pin.spec_ordinal(), next.index as int),
{
    let (e, ends, asc) = (c.tree.spec_encoding(), c.range@, c.order.asc());
    let (o, i) = (next.pin.spec_ordinal(), next.index as int);
    let r = match c.state {
        State::On(spot) => {
            assert(on_selected(
                &*c.tree,
                ends,
                s,
                spot.pin.spec_ordinal(),
                spot.index as int,
            ));
            let q = choose|q: int| #[trigger]
                paths::entry_is_row(s, spot.pin.spec_ordinal(), spot.index as int, q) && 0 <= q
                    < s.rows.len() && ends.selects(e, s.rows[q].key);
            let n = scan::onward(asc, q);
            lemma_entry_is_row(&*c.tree, s, layout, o, i, n);
            scan::lemma_bounds_cut(e, ends, asc, s.rows, q, n);
            n
        },
        _ => {
            choose|r: int| #[trigger]
                paths::entry_is_row(s, o, i, r) && scan::starts(e, ends, asc, s.rows, r)
        },
    };
    assert(paths::entry_is_row(s, o, i, r));
    scan::lemma_on_live(&*c.tree, ends, asc, next, s, layout, r);
}

/// One entry, borrowed from the cursor.
pub struct EntryRef<'a> {
    key: &'a [u8],
    value_pin: &'a PagePin,
    start: usize,
    end: usize,
    page: PageOrdinal,
    overflow: bool,
}

impl<'a> EntryRef<'a> {
    #[verifier::type_invariant]
    spec fn inside(&self) -> bool {
        self.start <= self.end <= self.value_pin@.len()
    }

    /// The entry key.
    pub closed spec fn spec_key(&self) -> Seq<u8> {
        self.key@
    }

    /// The entry value.
    pub closed spec fn spec_value(&self) -> Seq<u8> {
        self.value_pin@.subrange(self.start as int, self.end as int)
    }

    /// Whether the value lives on its own blob page.
    pub closed spec fn spec_overflow(&self) -> bool {
        self.overflow
    }

    /// The leaf page the entry lives on.
    pub closed spec fn spec_page(&self) -> PageOrdinal {
        self.page
    }

    /// The entry key. On pages that omit key bytes this is rebuilt from the digest.
    pub fn key(&self) -> (r: &'a [u8])
        ensures
            r@ == self.spec_key(),
    {
        self.key
    }

    /// The entry value.
    pub fn value(&self) -> (r: &[u8])
        ensures
            r@ == self.spec_value(),
    {
        proof {
            use_type_invariant(self);
        }
        slice_subrange(self.value_pin.bytes(), self.start, self.end)
    }

    /// Value length.
    pub fn value_len(&self) -> (r: usize)
        ensures
            r == self.spec_value().len(),
    {
        proof {
            use_type_invariant(self);
        }
        self.end - self.start
    }

    /// Whether the value lives on its own blob page.
    pub fn is_overflow(&self) -> (r: bool)
        ensures
            r == self.spec_overflow(),
    {
        self.overflow
    }

    /// The leaf page the entry lives on.
    pub fn page(&self) -> (r: PageOrdinal)
        ensures
            r == self.spec_page(),
    {
        self.page
    }

    /// Turns the borrowed value into an owning guard, so it can outlive the cursor.
    pub fn to_guard(&self) -> (r: Result<ValueGuard, Error>)
        ensures
            r matches Ok(g) && g@ == self.spec_value(),
    {
        proof {
            use_type_invariant(self);
        }
        self.value_pin.clone().into_guard(Range { start: self.start, end: self.end })
    }

    /// Copies the key out.
    pub fn key_to_vec(&self) -> (r: Vec<u8>)
        ensures
            r@ == self.spec_key(),
    {
        range::copied(self.key)
    }
}

/// What copies of bounds cost: each its bytes, what is appended to it, and 192.
pub proof fn lemma_bounds_price(a: Seq<u8>, b: Seq<u8>, extra: u64)
    requires
        a.len() <= 0xFFFF_FFFF,
        b.len() <= 0xFFFF_FFFF,
        extra <= 0xFFFF,
    ensures
        bounds_price(Bound::Unbounded, Bound::Unbounded, extra) == 0,
        bounds_price(Bound::Included(a), Bound::Unbounded, extra) == a.len() + extra + 192,
        bounds_price(Bound::Unbounded, Bound::Excluded(b), extra) == b.len() + extra + 192,
        bounds_price(Bound::Excluded(a), Bound::Included(b), extra) == a.len() + b.len() + 2 * extra
            + 384,
{
}

} // verus!

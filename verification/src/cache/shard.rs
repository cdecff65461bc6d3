//! One shard of the page cache: a table of pages and a CLOCK ring to evict by.

use std::collections::hash_map::Entry;
use std::collections::{HashMap, VecDeque};
use std::sync::atomic::AtomicBool;
use std::sync::Arc;

use vstd::prelude::*;
use vstd::std_specs::hash::*;

use crate::budget::{
    self, hash_table_bytes, hash_table_peak_bytes, Bookkeeping, Budget, Charge,
};
use crate::error::Error;
use crate::page::PagePin;

verus! {

broadcast use vstd::std_specs::hash::group_hash_axioms;

/// What a shard holds for a page.
pub enum Slot {
    /// The page.
    Ready { pin: PagePin, bytes: u64, referenced: bool },
    /// A load in flight. The flag is lowered once nothing works on it any more.
    Loading { alive: Arc<AtomicBool> },
}

/// One entry of a shard's table.
pub const SLOT_BYTES: usize = 32;

/// The smallest a ring is after it has grown at all.
///
/// A growing buffer asks for at least this many slots however few it had, so a ring of
/// one does not grow to two.
pub const RING_MIN_CAPACITY: usize = 4;

/// Bytes of a page, or none for a load in flight.
pub open spec fn slot_bytes(s: Slot) -> nat {
    match s {
        Slot::Ready { bytes, .. } => bytes as nat,
        Slot::Loading { .. } => 0,
    }
}

/// One for a page, none for a load in flight.
pub open spec fn slot_count(s: Slot) -> nat {
    match s {
        Slot::Ready { .. } => 1,
        Slot::Loading { .. } => 0,
    }
}

/// The sum of a measure over what is listed under some numbers.
pub open spec fn total<V>(m: Map<u64, V>, f: spec_fn(V) -> nat, dom: Set<u64>) -> nat
    decreases dom.len(),
{
    if dom.finite() && dom.len() > 0 {
        let k = dom.choose();
        total(m, f, dom.remove(k)) + f(m[k])
    } else {
        0
    }
}

/// A sum does not depend on the order.
pub(crate) proof fn lemma_total<V>(m: Map<u64, V>, f: spec_fn(V) -> nat, dom: Set<u64>, k: u64)
    requires
        dom.finite(),
        dom.contains(k),
    ensures
        total(m, f, dom) == total(m, f, dom.remove(k)) + f(m[k]),
    decreases dom.len(),
{
    let c = dom.choose();
    assert(dom.contains(c));
    if c != k {
        lemma_total(m, f, dom.remove(c), k);
        lemma_total(m, f, dom.remove(k), c);
        assert(dom.remove(c).remove(k) =~= dom.remove(k).remove(c));
    }
}

/// A sum depends only on the slots it is over.
proof fn lemma_total_same(
    a: Map<u64, Slot>,
    b: Map<u64, Slot>,
    f: spec_fn(Slot) -> nat,
    dom: Set<u64>,
)
    requires
        forall|k: u64| #[trigger] dom.contains(k) ==> f(a[k]) == f(b[k]),
    ensures
        total(a, f, dom) == total(b, f, dom),
    decreases dom.len(),
{
    if dom.finite() && dom.len() > 0 {
        let c = dom.choose();
        assert(dom.contains(c));
        lemma_total_same(a, b, f, dom.remove(c));
    }
}

/// The sum of a measure over all slots.
pub open spec fn sum(m: Map<u64, Slot>, f: spec_fn(Slot) -> nat) -> nat {
    total(m, f, m.dom())
}

/// What is added to a sum when a slot is set.
proof fn lemma_sum_insert(m: Map<u64, Slot>, f: spec_fn(Slot) -> nat, k: u64, s: Slot)
    requires
        m.dom().finite(),
    ensures
        sum(m.insert(k, s), f) == sum(m.remove(k), f) + f(s),
        m.contains_key(k) ==> sum(m, f) == sum(m.remove(k), f) + f(m[k]),
        !m.contains_key(k) ==> sum(m.remove(k), f) == sum(m, f),
        m.insert(k, s).dom().finite(),
        m.remove(k).dom().finite(),
{
    let n = m.insert(k, s);
    let d = m.dom().remove(k);
    lemma_total(n, f, n.dom(), k);
    assert(n.dom().remove(k) =~= d);
    assert(m.remove(k).dom() =~= d);
    lemma_total_same(n, m.remove(k), f, d);
    if m.contains_key(k) {
        lemma_total(m, f, m.dom(), k);
        lemma_total_same(m, m.remove(k), f, d);
    } else {
        assert(m.remove(k) =~= m);
    }
}

/// A sum of nothing is nothing.
proof fn lemma_sum_zero(m: Map<u64, Slot>, f: spec_fn(Slot) -> nat)
    requires
        m.dom().finite(),
        forall|k: u64| #[trigger] m.contains_key(k) ==> f(m[k]) == 0,
    ensures
        sum(m, f) == 0,
    decreases m.dom().len(),
{
    if m.dom().len() > 0 {
        let k = m.dom().choose();
        assert(m.dom().contains(k));
        lemma_sum_insert(m, f, k, m[k]);
        lemma_sum_zero(m.remove(k), f);
    }
}

/// How large a ring that had room for `capacity` is once it has taken `entries`: it
/// doubles from what it has, and never grows to less than four.
pub open spec fn ring_grown(capacity: nat, entries: nat) -> nat
    decreases (if capacity < entries {
        entries - capacity
    } else {
        0
    }),
{
    if capacity >= entries {
        capacity
    } else if 2 * capacity < RING_MIN_CAPACITY {
        ring_grown(RING_MIN_CAPACITY as nat, entries)
    } else {
        ring_grown(2 * capacity, entries)
    }
}

/// Bytes of a ring with room for `capacity`.
pub open spec fn spec_ring_bytes(capacity: nat) -> nat {
    8 * capacity
}

/// What a ring holding `entries` costs, given what it has room for now.
pub open spec fn spec_ring_target(capacity: nat, entries: nat) -> nat {
    if entries <= capacity {
        spec_ring_bytes(capacity)
    } else {
        let grown = ring_grown(capacity, entries);
        spec_ring_bytes(grown) + spec_ring_bytes(grown / 2)
    }
}

/// Bytes of a ring with room for `capacity`.
pub fn ring_bytes(capacity: usize) -> (r: u64)
    ensures
        r == budget::capped(spec_ring_bytes(capacity as nat) as int),
{
    let bytes: u128 = 8 * (capacity as u128);
    if bytes > u64::MAX as u128 {
        u64::MAX
    } else {
        bytes as u64
    }
}

/// What a ring holding `entries` costs, given what it has room for now.
///
/// A ring doubles, and while the last growth moves the entries across, the buffer it
/// came from is still there. Both are counted, because both are live at once.
pub fn ring_target_bytes(capacity: usize, entries: usize) -> (r: u64)
    ensures
        r == budget::capped(spec_ring_target(capacity as nat, entries as nat) as int),
{
    if entries <= capacity {
        return ring_bytes(capacity);
    }
    // It doubles from what it has, which is neither a power of two nor at least four
    // once it has been shrunk to fit: a ring of seven grows to fourteen, and one of
    // three to six. A growth never leaves it smaller than four, however little it had,
    // so one of one grows to four rather than to two.
    let mut grown: u128 = capacity as u128;
    let want: u128 = entries as u128;
    while grown < want
        invariant
            want <= usize::MAX,
            grown < 2 * want || grown <= 4,
            ring_grown(grown as nat, want as nat) == ring_grown(capacity as nat, want as nat),
        decreases (if grown < want {
            want - grown
        } else {
            0
        }),
    {
        grown = if 2 * grown < RING_MIN_CAPACITY as u128 {
            RING_MIN_CAPACITY as u128
        } else {
            2 * grown
        };
    }
    let bytes: u128 = 8 * grown + 8 * (grown / 2);
    if bytes > u64::MAX as u128 {
        u64::MAX
    } else {
        bytes as u64
    }
}

/// Bytes of a ring with room for `keep`, or for four, rounded up to a power of two.
fn rounded_ring_bytes(keep: usize) -> (r: u64)
    ensures
        r == budget::capped(spec_ring_bytes(budget::doubled_to(4, keep as nat)) as int),
{
    let want: u128 = keep as u128;
    let mut room: u128 = 4;
    while room < want
        invariant
            want <= usize::MAX,
            4 <= room,
            room < 2 * want || room == 4,
            budget::doubled_to(room as nat, want as nat) == budget::doubled_to(4, want as nat),
        decreases (if room < want {
            want - room
        } else {
            0
        }),
    {
        room = 2 * room;
    }
    let bytes: u128 = 8 * room;
    if bytes > u64::MAX as u128 {
        u64::MAX
    } else {
        bytes as u64
    }
}

/// What a table will take before it rehashes: `HashMap::capacity`. Nothing is claimed of
/// the number, which is the allocator's doing.
#[verifier::external_body]
pub(crate) fn table_capacity<V>(map: &HashMap<u64, V>) -> (r: usize) {
    map.capacity()
}

/// Lets a table give back the room it does not need: `HashMap::shrink_to_fit`, which keeps
/// what the table holds.
#[verifier::external_body]
pub(crate) fn shrink_table<V>(map: &mut HashMap<u64, V>)
    ensures
        final(map)@ == old(map)@,
{
    map.shrink_to_fit();
}

/// What a ring has room for: `VecDeque::capacity`. Nothing is claimed of the number, which
/// is the allocator's doing.
#[verifier::external_body]
fn ring_room(ring: &VecDeque<u64>) -> (r: usize) {
    ring.capacity()
}

/// Lets a ring give back room beyond `keep`: `VecDeque::shrink_to`, which keeps what the
/// ring holds.
#[verifier::external_body]
fn shrink_ring(ring: &mut VecDeque<u64>, keep: usize)
    ensures
        final(ring)@ == old(ring)@,
{
    ring.shrink_to(keep);
}

/// What is always true of a shard: the pages are good for the ordinals they are listed
/// under.
pub struct ShardRule {
    pub good: spec_fn(u64, PagePin) -> bool,
    pub budget: Arc<Budget>,
}

/// The pages of one shard.
pub struct ShardInner {
    map: HashMap<u64, Slot>,
    clock: VecDeque<u64>,
    resident: u64,
    ready: usize,
    /// What the table could hold at the bucket count it has now.
    ///
    /// Tracked by hand because `HashMap::capacity` is what the table will still take
    /// before it grows, and that falls as entries are removed although the buckets stay
    /// exactly where they are. Charging from it would give back memory that is still
    /// held, so the largest it has read since the table was last resized stands for the
    /// buckets instead.
    map_slots: usize,
    /// How many ring pushes loads in flight are still to make.
    ///
    /// The push happens with the shard locked, where there is no reserving, so the room
    /// for it is held from the time the marker goes in until the page is published. It
    /// is counted rather than measured: what the ring will cost depends on how many
    /// pushes are coming, not on what each of them thought when it started, and by the
    /// time the last of them publishes the ring has grown under all the others.
    pending_pushes: usize,
    /// What this shard's map and ring cost, charged by what they have allocated.
    ///
    /// Not folded into the per-page allowance: a shard holding one page still pays for
    /// a whole table and a whole ring, so a constant per page is short by most of it
    /// exactly when a cache is spread over many shards.
    book: Bookkeeping,
}

/// Whether there is a page under an ordinal.
pub open spec fn is_ready(m: Map<u64, Slot>, k: u64) -> bool {
    m.contains_key(k) && m[k] is Ready
}

/// Whether every page is on the ring.
pub open spec fn ring_covers(m: Map<u64, Slot>, ring: Seq<u64>) -> bool {
    forall|k: u64| #[trigger] is_ready(m, k) ==> ring.contains(k)
}

/// Whether two tables hold the same pages and markers, whatever their marks.
pub open spec fn same_pages(a: Map<u64, Slot>, b: Map<u64, Slot>) -> bool {
    &&& a.dom() == b.dom()
    &&& forall|k: u64| #[trigger] a.contains_key(k) ==> same_slot(a[k], b[k])
}

/// Whether two slots hold the same page, whatever their marks.
pub open spec fn same_slot(a: Slot, b: Slot) -> bool {
    match (a, b) {
        (Slot::Ready { pin: p, bytes: x, .. }, Slot::Ready { pin: q, bytes: y, .. }) => p == q && x
            == y,
        (Slot::Loading { alive: x }, Slot::Loading { alive: y }) => x == y,
        _ => false,
    }
}

/// What looking a page up finds.
pub enum Found {
    Page(PagePin),
    InFlight,
    Nothing,
}

impl ShardInner {
    /// What the shard holds.
    pub closed spec fn pages(&self) -> Map<u64, Slot> {
        self.map@
    }

    /// The most slots the table was seen to have room for.
    pub closed spec fn spec_slots(&self) -> usize {
        self.map_slots
    }

    /// How many ordinals are on the ring.
    pub closed spec fn spec_ring_len(&self) -> int {
        self.clock@.len() as int
    }

    /// Bytes of the pages held.
    pub closed spec fn spec_resident(&self) -> u64 {
        self.resident
    }

    /// Pushes promised to loads in flight.
    pub closed spec fn promised(&self) -> usize {
        self.pending_pushes
    }

    /// What is charged for the table and the ring.
    pub closed spec fn charged(&self) -> u64 {
        self.book.spec_bytes()
    }

    /// What is on the ring.
    pub closed spec fn ring(&self) -> Seq<u64> {
        self.clock@
    }

    /// Whether the ring was asked what it has room for, and this is what it said.
    pub closed spec fn ring_says(&self, room: usize) -> bool {
        call_ensures(ring_room, (&self.clock,), room)
    }

    /// Whether the table was asked what it has room for, and this is what it said.
    pub closed spec fn table_says(&self, room: usize) -> bool {
        call_ensures(table_capacity, (&self.map,), room)
    }

    /// How many ordinals the ring will have once every push promised has been made.
    pub open spec fn ring_entries(&self) -> nat {
        if self.spec_ring_len() + self.promised() > usize::MAX {
            usize::MAX as nat
        } else {
            (self.spec_ring_len() + self.promised()) as nat
        }
    }

    /// What the table and a ring with this room cost.
    pub open spec fn cost_with(&self, room: usize) -> u64 {
        budget::capped(
            budget::capped(budget::table_bytes(self.spec_slots() as nat, SLOT_BYTES as nat))
                + budget::capped(spec_ring_target(room as nat, self.ring_entries()) as int),
        )
    }

    /// Whether this is what the table and the ring cost, going by what the ring said it has
    /// room for.
    pub open spec fn costs(&self, bytes: u64) -> bool {
        exists|room: usize| #[trigger] self.ring_says(room) && bytes == self.cost_with(room)
    }

    /// Whether what is charged is what the table and the ring cost, or less where that did
    /// not fit the budget.
    pub open spec fn covered(&self) -> bool {
        exists|bytes: u64| #[trigger] self.costs(bytes) && self.charged() <= bytes
    }

    /// What one more entry would cost beyond what is charged, where the table has this much
    /// room and the ring that much.
    pub open spec fn growth_with(&self, table: usize, ring: usize) -> int {
        let entries = if self.ring_entries() == usize::MAX {
            usize::MAX as nat
        } else {
            self.ring_entries() + 1
        };
        let peak = budget::capped(
            budget::capped(
                budget::table_peak_bytes(
                    self.spec_slots() as nat,
                    table as nat,
                    self.pages().len(),
                    SLOT_BYTES as nat,
                ),
            ) + budget::capped(spec_ring_target(ring as nat, entries) as int),
        );
        if peak > self.charged() {
            peak - self.charged()
        } else {
            0
        }
    }

    /// Whether this is what one more entry would cost beyond what is charged, going by what
    /// the table and the ring said they have room for.
    pub open spec fn grows_by(&self, bytes: u64) -> bool {
        exists|table: usize, ring: usize|
            #[trigger] self.table_says(table) && #[trigger] self.ring_says(ring) && bytes
                == self.growth_with(table, ring)
    }

    /// Whether a table has emptied to less than half of what it had room for.
    pub open spec fn half_empty(&self) -> bool {
        self.spec_slots() > 2 * self.pages().len()
    }

    /// Whether the counts are right, every page is on the ring, and the pages are good.
    pub closed spec fn wf(&self, rule: ShardRule) -> bool {
        &&& self.counted(rule)
        &&& ring_covers(self.map@, self.clock@)
    }

    /// Whether what is charged for the table and the ring is charged to this budget.
    pub closed spec fn on_budget(&self, budget: Arc<Budget>) -> bool {
        self.book.on(budget)
    }

    /// Whether the counts are right and the pages are good.
    spec fn counted(&self, rule: ShardRule) -> bool {
        &&& self.map@.dom().finite()
        &&& self.resident == sum(self.map@, |s: Slot| slot_bytes(s))
        &&& self.ready == sum(self.map@, |s: Slot| slot_count(s))
        &&& self.book.on(rule.budget)
        &&& forall|k: u64| #[trigger] is_ready(self.map@, k) ==> (rule.good)(k, self.map@[k]->pin)
    }

    /// What well-formedness says of the pages.
    pub proof fn lemma_wf(&self, rule: ShardRule)
        requires
            self.wf(rule),
        ensures
            self.spec_resident() == sum(self.pages(), |s: Slot| slot_bytes(s)),
            self.pages().dom().finite(),
            self.on_budget(rule.budget),
            forall|k: u64|
                #[trigger] is_ready(self.pages(), k) ==> (rule.good)(k, self.pages()[k]->pin),
    {
    }

    /// A shard without pages, and with room on its ring.
    pub fn with_ring(capacity: usize) -> (r: ShardInner)
        ensures
            forall|rule: ShardRule| #[trigger] r.wf(rule),
            r.pages() == Map::<u64, Slot>::empty(),
            r.spec_resident() == 0,
            r.promised() == 0,
            r.charged() == 0,
            forall|budget: Arc<Budget>| #[trigger] r.on_budget(budget),
    {
        let r = ShardInner {
            map: HashMap::new(),
            clock: VecDeque::with_capacity(capacity),
            resident: 0,
            ready: 0,
            map_slots: 0,
            pending_pushes: 0,
            book: Bookkeeping::new(),
        };
        proof {
            lemma_sum_zero(r.map@, |s: Slot| slot_bytes(s));
            lemma_sum_zero(r.map@, |s: Slot| slot_count(s));
        }
        r
    }

    /// A shard without pages.
    pub fn new() -> (r: ShardInner)
        ensures
            forall|rule: ShardRule| #[trigger] r.wf(rule),
            r.pages() == Map::<u64, Slot>::empty(),
            r.spec_resident() == 0,
            r.promised() == 0,
            r.charged() == 0,
            forall|budget: Arc<Budget>| #[trigger] r.on_budget(budget),
    {
        ShardInner::with_ring(0)
    }

    /// Bytes of the pages held.
    pub fn resident(&self) -> (r: u64)
        ensures
            r == self.spec_resident(),
    {
        self.resident
    }

    /// How many pages are held, not counting loads in flight.
    pub fn ready(&self, Ghost(rule): Ghost<ShardRule>) -> (r: usize)
        requires
            self.wf(rule),
        ensures
            r == sum(self.pages(), |s: Slot| slot_count(s)),
    {
        self.ready
    }

    /// How many pages and loads in flight there are.
    pub fn len(&self) -> (r: usize)
        ensures
            r == self.pages().len(),
    {
        self.map.len()
    }

    /// What the table could hold at the bucket count it has now.
    pub fn table_slots(&self) -> (r: usize)
        ensures
            r == self.spec_slots(),
    {
        self.map_slots
    }

    /// What the ring has room for.
    pub fn ring_capacity(&self) -> (r: usize)
        ensures
            self.ring_says(r),
    {
        ring_room(&self.clock)
    }

    /// How many ordinals are on the ring.
    pub fn ring_len(&self) -> (r: usize)
        ensures
            r == self.spec_ring_len(),
    {
        self.clock.len()
    }

    /// Bytes charged for the table and the ring.
    pub fn charged_bytes(&self) -> (r: u64)
        ensures
            r == self.charged(),
    {
        self.book.bytes()
    }

    /// Replaces a slot by one with the same page.
    fn remark(&mut self, ordinal: u64, slot: Slot, Ghost(rule): Ghost<ShardRule>)
        requires
            old(self).counted(rule),
            old(self).map@.contains_key(ordinal),
            same_slot(old(self).map@[ordinal], slot),
        ensures
            final(self).counted(rule),
            final(self).map@ == old(self).map@.insert(ordinal, slot),
            same_pages(old(self).map@, final(self).map@),
            final(self).clock == old(self).clock,
            final(self).resident == old(self).resident,
            final(self).pending_pushes == old(self).pending_pushes,
            final(self).book == old(self).book,
            final(self).map_slots == old(self).map_slots,
    {
        let ghost before = self.map@;
        match self.map.entry(ordinal) {
            Entry::Occupied(entry) => {
                *entry.into_mut() = slot;
            },
            Entry::Vacant(_) => {},
        }
        proof {
            assert(self.map@ =~= before.insert(ordinal, slot));
            lemma_sum_insert(before, |s: Slot| slot_bytes(s), ordinal, slot);
            lemma_sum_insert(before, |s: Slot| slot_count(s), ordinal, slot);
            assert(self.map@.dom() =~= before.dom());
            assert forall|k: u64| #[trigger] is_ready(self.map@, k) implies (rule.good)(
                k,
                self.map@[k]->pin,
            ) by {
                assert(is_ready(before, k));
            }
        }
    }

    /// Looks a page up, and marks it as used.
    pub fn find(&mut self, ordinal: u64, Ghost(rule): Ghost<ShardRule>) -> (r: Found)
        requires
            old(self).wf(rule),
        ensures
            final(self).wf(rule),
            same_pages(old(self).pages(), final(self).pages()),
            final(self).spec_resident() == old(self).spec_resident(),
            final(self).promised() == old(self).promised(),
            final(self).charged() == old(self).charged(),
            final(self).ring() == old(self).ring(),
            r matches Found::Page(pin) ==> final(self).pages() == old(self).pages().insert(
                ordinal,
                Slot::Ready { pin, bytes: old(self).pages()[ordinal]->bytes, referenced: true },
            ),
            !(r is Page) ==> final(self).pages() == old(self).pages(),
            match r {
                Found::Page(pin) => is_ready(old(self).pages(), ordinal) && old(self).pages()[ordinal]->pin == pin && final(self).pages()[ordinal]->referenced
                    && (rule.good)(ordinal, pin),
                Found::InFlight => old(self).pages().contains_key(ordinal)
                    && old(self).pages()[ordinal] is Loading,
                Found::Nothing => !old(self).pages().contains_key(ordinal),
            },
    {
        let ghost before = *self;
        let (pin, bytes) = match self.map.get(&ordinal) {
            Some(slot) => match slot {
                Slot::Ready { pin, bytes, .. } => (pin.clone(), *bytes),
                Slot::Loading { .. } => return Found::InFlight,
            },
            None => return Found::Nothing,
        };
        let copy = pin.clone();
        self.remark(ordinal, Slot::Ready { pin: copy, bytes, referenced: true }, Ghost(rule));
        proof {
            assert(is_ready(before.map@, ordinal));
            assert forall|k: u64| #[trigger] is_ready(self.map@, k) implies self.clock@.contains(
                k,
            ) by {
                assert(is_ready(before.map@, k));
            }
        }
        Found::Page(pin)
    }

    /// The flag of the load of a page that is in flight.
    pub fn in_flight(&self, ordinal: u64) -> (r: Option<Arc<AtomicBool>>)
        ensures
            match r {
                Some(alive) => self.pages().contains_key(ordinal) && self.pages()[ordinal]
                    == (Slot::Loading { alive }),
                None => !(self.pages().contains_key(ordinal) && self.pages()[ordinal] is Loading),
            },
    {
        match self.map.get(&ordinal) {
            Some(slot) => match slot {
                Slot::Loading { alive } => Some(Arc::clone(alive)),
                Slot::Ready { .. } => None,
            },
            None => None,
        }
    }

    /// Takes note of a table that has just grown.
    fn note_table(&mut self)
        ensures
            final(self).map@ == old(self).map@,
            final(self).clock == old(self).clock,
            final(self).resident == old(self).resident,
            final(self).ready == old(self).ready,
            final(self).pending_pushes == old(self).pending_pushes,
            final(self).book == old(self).book,
    {
        let capacity = table_capacity(&self.map);
        if capacity > self.map_slots {
            self.map_slots = capacity;
        }
    }

    /// What the shard's table and ring cost. What the ring has room for is the allocator's
    /// doing; the table is counted in full whatever that is.
    pub fn footprint(&self) -> (r: u64)
        ensures
            self.costs(r),
            r >= budget::capped(
                budget::table_bytes(self.spec_slots() as nat, SLOT_BYTES as nat),
            ),
    {
        let room = ring_room(&self.clock);
        proof {
            assert(self.ring_says(room));
        }
        hash_table_bytes(self.map_slots, SLOT_BYTES).saturating_add(
            ring_target_bytes(room, self.clock.len().saturating_add(self.pending_pushes)),
        )
    }

    /// What a shard's table and ring would cost with one more entry in them, beyond what is
    /// already charged for.
    ///
    /// A ring with no free slot at least doubles, like a table. Asked before the entry goes
    /// in, so the room is reserved before the allocation rather than after it.
    ///
    /// Growing means allocating the new table, moving the entries across and only then
    /// letting the old one go, so both are live at once and the reservation covers both. It
    /// comes back down to the new one alone once the move is done.
    pub fn growth_for_one_more(&self) -> (r: u64)
        ensures
            self.grows_by(r),
            r + self.charged() >= budget::capped(
                budget::table_bytes(self.spec_slots() as nat, SLOT_BYTES as nat),
            ),
    {
        let table = table_capacity(&self.map);
        let ring = ring_room(&self.clock);
        proof {
            assert(self.table_says(table));
            assert(self.ring_says(ring));
        }
        let map_want = hash_table_peak_bytes(self.map_slots, table, self.map.len(), SLOT_BYTES);
        let ring_want = ring_target_bytes(
            ring,
            self.clock.len().saturating_add(self.pending_pushes).saturating_add(1),
        );
        map_want.saturating_add(ring_want).saturating_sub(self.book.bytes())
    }

    /// Brings a shard's bookkeeping charge in line with what it has allocated.
    ///
    /// Called after every change to the table or the ring. Growing can fail, which is the
    /// whole point: a shard's tables are memory like any other, and a budget with no room
    /// for them has to say so rather than quietly grow past it. Shrinking always succeeds.
    pub fn settle(&mut self, budget: &Arc<Budget>, Ghost(rule): Ghost<ShardRule>) -> (r: Result<
        (),
        Error,
    >)
        requires
            old(self).wf(rule),
            rule.budget == *budget,
        ensures
            final(self).wf(rule),
            final(self).pages() == old(self).pages(),
            final(self).spec_resident() == old(self).spec_resident(),
            final(self).promised() == old(self).promised(),
            final(self).spec_slots() == old(self).spec_slots(),
            final(self).ring() == old(self).ring(),
            match r {
                Ok(_) => final(self).costs(final(self).charged()),
                Err(e) => final(self).charged() == old(self).charged() && e.is_refusal()
                    && unpaid(budget),
            },
    {
        let want = self.footprint();
        let ghost mid = *self;
        let settled = self.book.settle(want, budget);
        proof {
            mid.lemma_costs(self, want);
            if settled is Err {
                let lacking = (want - mid.charged()) as u64;
                assert(budget.asked(lacking, Err::<(), Error>(settled->Err_0)));
                assert(budget.refused(lacking));
            }
        }
        settled
    }
}

impl ShardInner {
    /// Gives back the map and ring capacity a shard no longer needs.
    ///
    /// Neither shrinks on its own, so a shard that filled up and was then evicted down keeps
    /// the memory it grew into while the per-page reservations that stood for it are gone.
    /// Shrinking when a shard has emptied to half its capacity keeps what it retains inside
    /// the per-page allowance, and costs a rehash only after the shard has halved. There is
    /// no floor: an empty shard gives everything back, and a cache spread over many shards
    /// is exactly where a small floor each adds up to something.
    pub fn release_bookkeeping(&mut self, budget: &Arc<Budget>)
        requires
            old(self).on_budget(*budget),
        ensures
            final(self).on_budget(*budget),
            forall|rule: ShardRule|
                old(self).wf(rule) && rule.budget == *budget ==> #[trigger] final(self).wf(rule),
            final(self).pages() == old(self).pages(),
            final(self).spec_resident() == old(self).spec_resident(),
            final(self).promised() == old(self).promised(),
            final(self).ring() == old(self).ring(),
            final(self).spec_slots() == old(self).spec_slots() || old(self).half_empty() && final(self).table_says(final(self).spec_slots()),
            final(self).covered(),
    {
        // Shrinking allocates the smaller table before it lets the bigger one go, so both
        // are live while the entries move. That is reserved first, and the shrink is skipped
        // when it does not fit: the room it would give back is worth having, but not at the
        // cost of going over the budget while taking it.
        if self.map_slots / 2 > self.map.len() || (self.map_slots % 2 == 1 && self.map_slots / 2
            == self.map.len()) {
            let during = self.footprint().saturating_add(
                hash_table_bytes(self.map.len(), SLOT_BYTES),
            );
            if self.book.settle(during, budget).is_ok() {
                let before = table_capacity(&self.map);
                shrink_table(&mut self.map);
                // A table that was not rebuilt still has the buckets it had, whatever its
                // capacity reads now.
                let after = table_capacity(&self.map);
                if after != before {
                    self.map_slots = after;
                }
            }
        }
        // The ring keeps room for the pushes already promised as well as what it holds: a
        // load that found a free slot when it started reserved nothing for one, and taking
        // that slot away now would leave it allocating with nothing covering it.

        let keep = self.clock.len().saturating_add(self.pending_pushes);
        let room = ring_room(&self.clock);
        if room / 2 > keep || (room % 2 == 1 && room / 2 == keep) {
            // What it will have afterwards, rounded up, because a ring may keep more than it
            // was asked to.
            let after = rounded_ring_bytes(keep);
            let during = self.footprint().saturating_add(after);
            if self.book.settle(during, budget).is_ok() {
                shrink_ring(&mut self.clock, keep);
            }
        }
        // Only ever downwards from here, so it cannot fail.

        let want = self.footprint();
        let ghost mid = *self;
        let _ = self.book.settle(want, budget);
        proof {
            mid.lemma_costs(self, want);
        }
    }

    /// What a shard costs does not depend on what is charged for it.
    proof fn lemma_costs(&self, other: &ShardInner, bytes: u64)
        requires
            self.costs(bytes),
            other.clock == self.clock,
            other.map_slots == self.map_slots,
            other.pending_pushes == self.pending_pushes,
        ensures
            other.costs(bytes),
    {
        let room = choose|room: usize|
            #[trigger] self.ring_says(room) && bytes == self.cost_with(room);
        assert(other.ring_says(room));
    }

    /// Takes a page or a marker out.
    fn take_out(&mut self, ordinal: u64, Ghost(rule): Ghost<ShardRule>) -> (r: Option<Slot>)
        requires
            old(self).counted(rule),
        ensures
            final(self).counted(rule),
            final(self).map@ == old(self).map@.remove(ordinal),
            r == old(self).map@.get(ordinal),
            final(self).resident <= old(self).resident,
            final(self).clock == old(self).clock,
            final(self).pending_pushes == old(self).pending_pushes,
            final(self).book == old(self).book,
            final(self).map_slots == old(self).map_slots,
    {
        let ghost before = self.map@;
        let ghost fb = |s: Slot| slot_bytes(s);
        let ghost fc = |s: Slot| slot_count(s);
        let slot = self.map.remove(&ordinal);
        proof {
            lemma_sum_insert(before, fb, ordinal, before[ordinal]);
            lemma_sum_insert(before, fc, ordinal, before[ordinal]);
        }
        match &slot {
            Some(s) => match s {
                Slot::Ready { bytes, .. } => {
                    self.resident = self.resident - *bytes;
                    self.ready = self.ready - 1;
                },
                Slot::Loading { .. } => {},
            },
            None => {},
        }
        proof {
            assert forall|k: u64| #[trigger] is_ready(self.map@, k) implies (rule.good)(
                k,
                self.map@[k]->pin,
            ) by {
                assert(is_ready(before, k));
            }
        }
        slot
    }

    /// Puts a marker in for a load that is about to start, and promises it a push.
    ///
    /// `charge` is what was reserved for the marker and for what the table and the ring
    /// grow by to hold it, and `alive` the flag that is lowered when the load is over.
    pub fn promise(
        &mut self,
        ordinal: u64,
        alive: Arc<AtomicBool>,
        charge: Charge,
        budget: &Arc<Budget>,
    )
        requires
            old(self).on_budget(*budget),
            charge.owner() == *budget,
            !old(self).pages().contains_key(ordinal),
        ensures
            final(self).on_budget(*budget),
            forall|rule: ShardRule|
                old(self).wf(rule) && rule.budget == *budget ==> #[trigger] final(self).wf(rule),
            final(self).pages() == old(self).pages().insert(ordinal, Slot::Loading { alive }),
            final(self).ring() == old(self).ring(),
            final(self).spec_resident() == old(self).spec_resident(),
            final(self).promised() == (if old(self).promised() == usize::MAX {
                usize::MAX
            } else {
                (old(self).promised() + 1) as usize
            }),
    {
        let ghost before = self.map@;
        let ghost marker = Slot::Loading { alive };
        let inserted = self.map.insert(ordinal, Slot::Loading { alive });
        proof {
            lemma_sum_insert(before, |s: Slot| slot_bytes(s), ordinal, marker);
            lemma_sum_insert(before, |s: Slot| slot_count(s), ordinal, marker);
            assert forall|k: u64| #[trigger] is_ready(self.map@, k) implies is_ready(before, k)
                && self.map@[k] == before[k] by {}
        }
        self.note_table();
        // Counted until this load publishes, because the push it will make happens with the
        // shard locked, where nothing can reserve.
        self.pending_pushes = self.pending_pushes.saturating_add(1);
        self.book.absorb(charge);
        // Only ever downwards from here: the reservation covered the most the table could
        // have grown by.

        let want = self.footprint();
        let _ = self.book.settle(want, budget);
    }

    /// Takes the marker of a load out, and with it the push it was promised.
    pub fn withdraw(&mut self, ordinal: u64)
        requires
            exists|rule: ShardRule| #[trigger] old(self).wf(rule),
        ensures
            forall|rule: ShardRule| old(self).wf(rule) ==> #[trigger] final(self).wf(rule),
            forall|budget: Arc<Budget>|
                old(self).on_budget(budget) ==> #[trigger] final(self).on_budget(budget),
            final(self).pages() == old(self).pages().remove(ordinal),
            final(self).ring() == old(self).ring(),
            final(self).spec_resident() <= old(self).spec_resident(),
            final(self).promised() == (if old(self).promised() == 0 {
                0
            } else {
                (old(self).promised() - 1) as usize
            }),
    {
        let ghost before = self.map@;
        let ghost rule = choose|rule: ShardRule| #[trigger] self.wf(rule);
        let slot = self.take_out(ordinal, Ghost(rule));
        self.pending_pushes = self.pending_pushes.saturating_sub(1);
        proof {
            assert forall|k: u64| #[trigger] is_ready(self.map@, k) implies self.clock@.contains(
                k,
            ) by {
                assert(is_ready(before, k));
            }
            assert forall|other: ShardRule| old(self).wf(other) implies #[trigger] self.wf(
                other,
            ) by {
                assert forall|k: u64| #[trigger] is_ready(self.map@, k) implies (other.good)(
                    k,
                    self.map@[k]->pin,
                ) by {
                    assert(is_ready(before, k));
                }
            }
        }
    }

    /// Lists a page, where its bytes can be counted.
    pub fn publish(
        &mut self,
        ordinal: u64,
        pin: PagePin,
        bytes: u64,
        Ghost(rule): Ghost<ShardRule>,
    )
        requires
            old(self).wf(rule),
            !old(self).pages().contains_key(ordinal),
            (rule.good)(ordinal, pin),
        ensures
            final(self).wf(rule),
            final(self).promised() == old(self).promised(),
            old(self).spec_resident() + bytes > u64::MAX ==> final(self).pages() == old(self).pages(),
            old(self).spec_resident() + bytes <= u64::MAX && old(self).pages().len() < usize::MAX
                ==> final(self).pages() == old(self).pages().insert(
                ordinal,
                Slot::Ready { pin, bytes, referenced: true },
            ),
            final(self).pages() == old(self).pages() || final(self).pages() == old(self).pages().insert(ordinal, Slot::Ready { pin, bytes, referenced: true }),
            final(self).pages().contains_key(ordinal) ==> final(self).ring() == old(self).ring().push(
                ordinal,
            ),
            !final(self).pages().contains_key(ordinal) ==> final(self).ring() == old(self).ring(),
    {
        let ghost before = self.map@;
        let ghost ring = self.clock@;
        let ghost slot = Slot::Ready { pin, bytes, referenced: true };
        if bytes > u64::MAX - self.resident || self.ready == usize::MAX {
            proof {
                lemma_count(before);
            }
            return;
        }
        let replaced = self.map.insert(ordinal, Slot::Ready { pin, bytes, referenced: true });
        proof {
            lemma_sum_insert(before, |s: Slot| slot_bytes(s), ordinal, slot);
            lemma_sum_insert(before, |s: Slot| slot_count(s), ordinal, slot);
        }
        self.resident = self.resident + bytes;
        self.ready = self.ready + 1;
        self.clock.push_back(ordinal);
        self.note_table();
        proof {
            assert forall|k: u64| #[trigger] is_ready(self.map@, k) implies (rule.good)(
                k,
                self.map@[k]->pin,
            ) && self.clock@.contains(k) by {
                if k != ordinal {
                    assert(is_ready(before, k));
                    let i = choose|i: int| 0 <= i < ring.len() && ring[i] == k;
                    assert(self.clock@[i] == k);
                } else {
                    assert(self.clock@[ring.len() as int] == k);
                }
            }
        }
    }
}

impl ShardInner {
    /// What listing a page comes to: it is there, or it went before anything saw it.
    pub proof fn lemma_publish(
        &self,
        after: Map<u64, Slot>,
        ordinal: u64,
        pin: PagePin,
        bytes: u64,
    )
        requires
            !self.pages().contains_key(ordinal),
            self.pages().dom().finite(),
            after == self.pages() || after == self.pages().insert(
                ordinal,
                Slot::Ready { pin, bytes, referenced: true },
            ),
        ensures
            thinned(
                self.pages().insert(ordinal, Slot::Ready { pin, bytes, referenced: true }),
                after,
            ),
            sum(
                self.pages().insert(ordinal, Slot::Ready { pin, bytes, referenced: true }),
                |s: Slot| slot_bytes(s),
            ) == sum(self.pages(), |s: Slot| slot_bytes(s)) + bytes,
    {
        let slot = Slot::Ready { pin, bytes, referenced: true };
        lemma_sum_insert(self.pages(), |s: Slot| slot_bytes(s), ordinal, slot);
    }
}

/// There are no more pages than slots.
proof fn lemma_count(m: Map<u64, Slot>)
    requires
        m.dom().finite(),
    ensures
        sum(m, |s: Slot| slot_count(s)) <= m.dom().len(),
    decreases m.dom().len(),
{
    let f = |s: Slot| slot_count(s);
    if m.dom().len() > 0 {
        let k = m.dom().choose();
        assert(m.dom().contains(k));
        lemma_sum_insert(m, f, k, m[k]);
        assert(m.remove(k).dom() =~= m.dom().remove(k));
        lemma_count(m.remove(k));
    } else {
        assert forall|k: u64| #[trigger] m.contains_key(k) implies f(m[k]) == 0 by {
            assert(m.dom().contains(k));
        }
        lemma_sum_zero(m, f);
    }
}

/// Whether a budget was asked for room and did not have it.
pub open spec fn unpaid(budget: &Arc<Budget>) -> bool {
    exists|bytes: u64| #[trigger] budget.refused(bytes)
}

/// Whether a page went, and nothing else did.
pub open spec fn evicted(a: Map<u64, Slot>, b: Map<u64, Slot>, k: u64, bytes: u64) -> bool {
    is_ready(a, k) && a[k]->bytes == bytes && same_pages(a.remove(k), b)
}

/// Whether some page of this many bytes went, and nothing else did.
pub open spec fn one_evicted(a: Map<u64, Slot>, b: Map<u64, Slot>, bytes: u64) -> bool {
    exists|k: u64| #[trigger] evicted(a, b, k, bytes)
}

/// Whether pages went and nothing else did: what is left is as it was, and every marker is.
pub open spec fn thinned(a: Map<u64, Slot>, b: Map<u64, Slot>) -> bool {
    &&& forall|k: u64| #[trigger] b.contains_key(k) ==> a.contains_key(k) && same_slot(a[k], b[k])
    &&& forall|k: u64|
        #[trigger] a.contains_key(k) && a[k] is Loading ==> b.contains_key(k)
}

/// Losing one page is losing pages.
pub proof fn lemma_thinned(a: Map<u64, Slot>, b: Map<u64, Slot>, c: Map<u64, Slot>, bytes: u64)
    requires
        thinned(a, b),
        one_evicted(b, c, bytes),
    ensures
        thinned(a, c),
{
    let k = choose|k: u64| #[trigger] evicted(b, c, k, bytes);
    assert forall|x: u64| #[trigger] c.contains_key(x) implies a.contains_key(x) && same_slot(
        a[x],
        c[x],
    ) by {
        assert(b.remove(k).contains_key(x));
        assert(b.contains_key(x));
    }
    assert forall|x: u64| #[trigger] a.contains_key(x) && a[x] is Loading implies c.contains_key(
        x,
    ) by {
        assert(b.contains_key(x) && same_slot(a[x], b[x]));
        assert(b.remove(k).contains_key(x));
    }
}

/// Losing pages twice is losing pages.
pub proof fn lemma_thinned_twice(a: Map<u64, Slot>, b: Map<u64, Slot>, c: Map<u64, Slot>)
    requires
        thinned(a, b),
        thinned(b, c),
    ensures
        thinned(a, c),
{
    assert forall|x: u64| #[trigger] c.contains_key(x) implies a.contains_key(x) && same_slot(
        a[x],
        c[x],
    ) by {
        assert(b.contains_key(x));
    }
    assert forall|x: u64| #[trigger] a.contains_key(x) && a[x] is Loading implies c.contains_key(
        x,
    ) by {
        assert(b.contains_key(x) && same_slot(a[x], b[x]));
    }
}

/// What is on a ring after its front has been taken.
proof fn lemma_ring_front(ring: Seq<u64>, rest: Seq<u64>, k: u64)
    requires
        ring.len() > 0,
        rest == ring.subrange(1, ring.len() as int),
        ring.contains(k),
        k != ring[0],
    ensures
        rest.contains(k),
{
    let i = choose|i: int| 0 <= i < ring.len() && ring[i] == k;
    assert(rest[i - 1] == k);
}

/// The pages that a ring lists, in its order, without the entries that have gone stale.
pub open spec fn listed(ring: Seq<u64>, m: Map<u64, Slot>) -> Seq<u64> {
    ring.filter(|k: u64| is_ready(m, k))
}

/// Whether the page at this place on the ring is the one to go: the first without a mark, or the
/// first of all where each has one. The pages before it that had a mark have lost it and are behind
/// the others now, and the pages after it keep what they had, unless the hand went all the way
/// round.
pub open spec fn to_go(
    ring: Seq<u64>,
    a: Map<u64, Slot>,
    b: Map<u64, Slot>,
    after: Seq<u64>,
    p: int,
) -> bool {
    &&& 0 <= p < ring.len()
    &&& is_ready(a, ring[p])
    &&& !b.contains_key(ring[p])
    &&& forall|i: int|
        0 <= i < p && is_ready(a, #[trigger] ring[i]) ==> a[ring[i]]->referenced
            && !b[ring[i]]->referenced
    &&& !a[ring[p]]->referenced ==> {
        &&& forall|i: int|
            p < i < ring.len() && is_ready(a, #[trigger] ring[i]) ==> b[ring[i]]->referenced
                == a[ring[i]]->referenced
        &&& after == ring.subrange(p + 1, ring.len() as int) + listed(ring.subrange(0, p), a)
    }
    &&& a[ring[p]]->referenced ==> {
        &&& forall|i: int| 0 <= i < p ==> !is_ready(a, #[trigger] ring[i])
        &&& forall|i: int|
            p < i < ring.len() && is_ready(a, #[trigger] ring[i]) ==> a[ring[i]]->referenced
                && !b[ring[i]]->referenced
        &&& after == listed(ring, a).drop_first()
    }
}

/// Whether some page on the ring was the one to go, and is gone.
pub open spec fn second_chance(
    ring: Seq<u64>,
    a: Map<u64, Slot>,
    b: Map<u64, Slot>,
    after: Seq<u64>,
) -> bool {
    exists|p: int| #[trigger] to_go(ring, a, b, after, p)
}

/// Whether the hand has passed this many entries of a ring, all of them stale or marked.
spec fn walked(
    start: Seq<u64>,
    a: Map<u64, Slot>,
    ring: Seq<u64>,
    m: Map<u64, Slot>,
    d: int,
) -> bool {
    &&& 0 <= d <= start.len()
    &&& ring == start.subrange(d, start.len() as int) + listed(start.subrange(0, d), a)
    &&& forall|i: int|
        0 <= i < d && is_ready(a, #[trigger] start[i]) ==> a[start[i]]->referenced
            && !m[start[i]]->referenced
    &&& forall|i: int|
        d <= i < start.len() && is_ready(a, #[trigger] start[i]) ==> m[start[i]]->referenced
            == a[start[i]]->referenced
}

/// One more entry is listed where there is a page for it.
proof fn lemma_listed_one(s: Seq<u64>, m: Map<u64, Slot>, d: int)
    requires
        0 <= d < s.len(),
    ensures
        is_ready(m, s[d]) ==> listed(s.subrange(0, d + 1), m) == listed(s.subrange(0, d), m).push(
            s[d],
        ),
        !is_ready(m, s[d]) ==> listed(s.subrange(0, d + 1), m) == listed(s.subrange(0, d), m),
{
    reveal(Seq::filter);
    assert(s.subrange(0, d + 1).drop_last() =~= s.subrange(0, d));
    assert(s.subrange(0, d + 1).last() == s[d]);
}

/// What is listed first is the first page on the ring.
proof fn lemma_listed_first(s: Seq<u64>, m: Map<u64, Slot>)
    ensures
        listed(s, m).len() > 0 ==> exists|p: int|
            0 <= p < s.len() && #[trigger] s[p] == listed(s, m)[0] && is_ready(m, s[p]) && (forall|
                i: int,
            |
                0 <= i < p ==> !is_ready(m, #[trigger] s[i])),
        listed(s, m).len() == 0 ==> forall|i: int| 0 <= i < s.len() ==> !is_ready(m, #[trigger] s[i]),
    decreases s.len(),
{
    reveal(Seq::filter);
    if s.len() > 0 {
        let rest = s.drop_last();
        lemma_listed_first(rest, m);
        if listed(rest, m).len() > 0 {
            let p = choose|p: int|
                0 <= p < rest.len() && #[trigger] rest[p] == listed(rest, m)[0] && is_ready(
                    m,
                    rest[p],
                ) && (forall|i: int| 0 <= i < p ==> !is_ready(m, #[trigger] rest[i]));
            assert(s[p] == listed(s, m)[0]);
            assert forall|i: int| 0 <= i < p implies !is_ready(m, #[trigger] s[i]) by {
                assert(rest[i] == s[i]);
            }
        } else {
            let last = s.len() - 1;
            assert forall|i: int| 0 <= i < last implies !is_ready(m, #[trigger] s[i]) by {
                assert(rest[i] == s[i]);
            }
            assert(s[last] == s.last());
        }
    }
}

/// A walk starts where nothing has been passed.
proof fn lemma_walk_starts(start: Seq<u64>, a: Map<u64, Slot>)
    ensures
        walked(start, a, start, a, 0),
{
    reveal(Seq::filter);
    assert(start.subrange(0, 0) =~= Seq::empty());
    assert(start.subrange(0, start.len() as int) + listed(start.subrange(0, 0), a) =~= start);
}

/// What the hand is at: an entry of the ring it started on, or the first of its pages after all of
/// them lost their marks.
proof fn lemma_walk_front(
    start: Seq<u64>,
    a: Map<u64, Slot>,
    ring: Seq<u64>,
    m: Map<u64, Slot>,
    d: int,
)
    requires
        walked(start, a, ring, m, d),
        same_pages(a, m),
        ring.len() > 0,
    ensures
        d < start.len() ==> ring[0] == start[d],
        d == start.len() ==> is_ready(m, ring[0]) && !m[ring[0]]->referenced,
        is_ready(m, ring[0]) <==> is_ready(a, ring[0]),
{
    if d == start.len() {
        assert(start.subrange(0, d) =~= start);
        assert(ring =~= listed(start, a));
        lemma_listed_first(start, a);
    }
    if a.contains_key(ring[0]) {
        assert(same_slot(a[ring[0]], m[ring[0]]));
    }
    assert(a.dom().contains(ring[0]) <==> m.dom().contains(ring[0]));
}

/// Passing a stale entry.
proof fn lemma_walk_skips(
    start: Seq<u64>,
    a: Map<u64, Slot>,
    ring: Seq<u64>,
    m: Map<u64, Slot>,
    rest: Seq<u64>,
    d: int,
)
    requires
        walked(start, a, ring, m, d),
        same_pages(a, m),
        ring.len() > 0,
        rest == ring.subrange(1, ring.len() as int),
        !is_ready(m, ring[0]),
    ensures
        walked(start, a, rest, m, d + 1),
{
    lemma_walk_front(start, a, ring, m, d);
    lemma_listed_one(start, a, d);
    assert(rest =~= start.subrange(d + 1, start.len() as int) + listed(
        start.subrange(0, d + 1),
        a,
    ));
}

/// Passing a page that has a mark, which it loses.
proof fn lemma_walk_demotes(
    start: Seq<u64>,
    a: Map<u64, Slot>,
    ring: Seq<u64>,
    m: Map<u64, Slot>,
    rest: Seq<u64>,
    n: Map<u64, Slot>,
    d: int,
)
    requires
        start.no_duplicates(),
        walked(start, a, ring, m, d),
        same_pages(a, m),
        ring.len() > 0,
        rest == ring.subrange(1, ring.len() as int).push(ring[0]),
        is_ready(m, ring[0]),
        m[ring[0]]->referenced,
        is_ready(n, ring[0]),
        !n[ring[0]]->referenced,
        forall|k: u64| k != ring[0] ==> #[trigger] n[k] == m[k],
    ensures
        walked(start, a, rest, n, d + 1),
{
    lemma_walk_front(start, a, ring, m, d);
    lemma_listed_one(start, a, d);
    assert(rest =~= start.subrange(d + 1, start.len() as int) + listed(
        start.subrange(0, d + 1),
        a,
    ));
}

/// Finding a page that has no mark.
proof fn lemma_walk_ends(
    start: Seq<u64>,
    a: Map<u64, Slot>,
    ring: Seq<u64>,
    m: Map<u64, Slot>,
    rest: Seq<u64>,
    d: int,
)
    requires
        start.no_duplicates(),
        walked(start, a, ring, m, d),
        same_pages(a, m),
        ring.len() > 0,
        rest == ring.subrange(1, ring.len() as int),
        is_ready(m, ring[0]),
        !m[ring[0]]->referenced,
    ensures
        second_chance(start, a, m.remove(ring[0]), rest),
{
    lemma_walk_front(start, a, ring, m, d);
    let b = m.remove(ring[0]);
    if d < start.len() {
        assert(rest =~= start.subrange(d + 1, start.len() as int) + listed(
            start.subrange(0, d),
            a,
        ));
        assert(to_go(start, a, b, rest, d));
    } else {
        assert(start.subrange(0, d) =~= start);
        assert(ring =~= listed(start, a));
        lemma_listed_first(start, a);
        let p = choose|p: int|
            0 <= p < start.len() && #[trigger] start[p] == listed(start, a)[0] && is_ready(
                a,
                start[p],
            ) && (forall|i: int| 0 <= i < p ==> !is_ready(a, #[trigger] start[i]));
        assert(rest =~= listed(start, a).drop_first());
        assert(to_go(start, a, b, rest, p));
    }
}

impl ShardInner {
    /// Whether the ring from `from` on lists pages that have lost their mark.
    spec fn unmarked_from(&self, from: int) -> bool {
        forall|i: int|
            from <= i < self.clock@.len() ==> is_ready(self.map@, #[trigger] self.clock@[i])
                && !self.map@[self.clock@[i]]->referenced
    }

    /// One CLOCK step: evicts the first unreferenced page, giving referenced pages a second
    /// chance.
    pub fn evict_one(&mut self, budget: &Arc<Budget>, Ghost(rule): Ghost<ShardRule>) -> (r: Option<
        u64,
    >)
        requires
            old(self).wf(rule),
            rule.budget == *budget,
        ensures
            final(self).wf(rule),
            final(self).promised() == old(self).promised(),
            r matches Some(bytes) ==> one_evicted(old(self).pages(), final(self).pages(), bytes),
            r is None ==> final(self).spec_resident() == old(self).spec_resident(),
            r is None ==> final(self).pages() == old(self).pages() && forall|k: u64|
                !#[trigger] is_ready(old(self).pages(), k),
            r matches Some(bytes) ==> final(self).spec_resident() == old(self).spec_resident()
                - bytes,
            r is Some ==> final(self).pages().len() == old(self).pages().len() - 1,
            r is Some && old(self).ring().no_duplicates() ==> second_chance(
                old(self).ring(),
                old(self).pages(),
                final(self).pages(),
                final(self).ring(),
            ),
    {
        let ghost before = *self;
        let ghost mut left = self.clock@.len() as int;
        let ghost mut passed: int = 0;
        proof {
            lemma_walk_starts(before.clock@, before.map@);
        }
        // Bounded, because a ring full of referenced pages hands every one of them a second
        // chance before any of them can go.
        let mut steps: u128 = 2 * (self.clock.len() as u128) + 1;
        while steps > 0
            invariant
                self.counted(rule),
                ring_covers(self.map@, self.clock@),
                same_pages(before.map@, self.map@),
                before.wf(rule),
                before == *old(self),
                self.resident == before.resident,
                self.pending_pushes == before.pending_pushes,
                rule.budget == *budget,
                0 <= left <= self.clock@.len(),
                self.unmarked_from(left),
                steps >= left + 1,
                before.clock@.no_duplicates() ==> walked(
                    before.clock@,
                    before.map@,
                    self.clock@,
                    self.map@,
                    passed,
                ),
            decreases steps,
        {
            steps -= 1;
            let ghost ring = self.clock@;
            let ghost map = self.map@;
            let ordinal = match self.clock.pop_front() {
                Some(ordinal) => ordinal,
                None => {
                    proof {
                        assert forall|k: u64| !#[trigger] is_ready(before.map@, k) by {
                            if is_ready(before.map@, k) {
                                assert(is_ready(self.map@, k));
                                assert(ring.contains(k));
                            }
                        }
                        lemma_nothing_ready(before.map@, self.map@);
                    }
                    return None;
                },
            };
            let ghost rest = self.clock@;
            proof {
                assert(rest =~= ring.subrange(1, ring.len() as int));
                assert forall|k: u64| #[trigger] is_ready(map, k) && k != ordinal implies rest.contains(
                    k,
                ) by {
                    lemma_ring_front(ring, rest, k);
                }
            }
            let found = match self.map.get(&ordinal) {
                Some(slot) => match slot {
                    Slot::Ready { pin, bytes, referenced } => Some(
                        (pin.clone(), *bytes, *referenced),
                    ),
                    Slot::Loading { .. } => None,
                },
                None => None,
            };
            match found {
                Some((pin, bytes, referenced)) => {
                    proof {
                        assert(is_ready(map, ordinal));
                    }
                    if referenced {
                        proof {
                            assert(left > 0) by {
                                if left == 0 {
                                    assert(is_ready(map, ring[0]) && !map[ring[0]]->referenced);
                                }
                            }
                        }
                        self.remark(
                            ordinal,
                            Slot::Ready { pin, bytes, referenced: false },
                            Ghost(rule),
                        );
                        self.clock.push_back(ordinal);
                        proof {
                            if before.clock@.no_duplicates() {
                                lemma_walk_demotes(
                                    before.clock@,
                                    before.map@,
                                    ring,
                                    map,
                                    self.clock@,
                                    self.map@,
                                    passed,
                                );
                                passed = passed + 1;
                            }
                            left = left - 1;
                            assert forall|k: u64| #[trigger] is_ready(self.map@, k) implies self.clock@.contains(
                                k,
                            ) by {
                                if k == ordinal {
                                    assert(self.clock@[rest.len() as int] == k);
                                } else {
                                    assert(is_ready(map, k));
                                    let i = choose|i: int| 0 <= i < rest.len() && rest[i] == k;
                                    assert(self.clock@[i] == k);
                                }
                            }
                            assert forall|i: int| left <= i < self.clock@.len() implies is_ready(
                                self.map@,
                                #[trigger] self.clock@[i],
                            ) && !self.map@[self.clock@[i]]->referenced by {
                                if i < rest.len() {
                                    assert(self.clock@[i] == ring[i + 1]);
                                }
                            }
                        }
                    } else {
                        proof {
                            assert(is_ready(before.map@, ordinal));
                        }
                        let gone = self.take_out(ordinal, Ghost(rule));
                        proof {
                            assert forall|k: u64| #[trigger] is_ready(self.map@, k) implies self.clock@.contains(
                                k,
                            ) by {
                                assert(is_ready(map, k));
                            }
                            lemma_sum_insert(
                                map,
                                |s: Slot| slot_bytes(s),
                                ordinal,
                                map[ordinal],
                            );
                            assert(same_pages(before.map@.remove(ordinal), self.map@)) by {
                                assert(before.map@.remove(ordinal).dom() =~= self.map@.dom());
                            }
                        }
                        self.release_bookkeeping(budget);
                        proof {
                            if before.clock@.no_duplicates() {
                                lemma_walk_ends(
                                    before.clock@,
                                    before.map@,
                                    ring,
                                    map,
                                    self.clock@,
                                    passed,
                                );
                            }
                            assert(evicted(before.map@, self.map@, ordinal, bytes));
                            assert(one_evicted(before.map@, self.map@, bytes));
                            assert(self.map@.dom() =~= before.map@.dom().remove(ordinal));
                        }
                        return Some(bytes);
                    }
                },
                // A stale ring entry: the page is loading again, or was already removed.
                None => {
                    proof {
                        assert(!is_ready(map, ordinal));
                        assert(left > 0) by {
                            if left == 0 {
                                assert(is_ready(map, ring[0]));
                            }
                        }
                        if before.clock@.no_duplicates() {
                            lemma_walk_skips(
                                before.clock@,
                                before.map@,
                                ring,
                                map,
                                self.clock@,
                                passed,
                            );
                            passed = passed + 1;
                        }
                        left = left - 1;
                        assert forall|i: int| left <= i < self.clock@.len() implies is_ready(
                            self.map@,
                            #[trigger] self.clock@[i],
                        ) && !self.map@[self.clock@[i]]->referenced by {
                            assert(self.clock@[i] == ring[i + 1]);
                        }
                    }
                },
            }
        }
        None
    }

    /// Evicts pages until no more than `capacity` bytes are held. Returns how many went.
    pub fn evict_down_to(
        &mut self,
        capacity: u64,
        budget: &Arc<Budget>,
        Ghost(rule): Ghost<ShardRule>,
    ) -> (r: u64)
        requires
            old(self).wf(rule),
            rule.budget == *budget,
        ensures
            final(self).wf(rule),
            final(self).promised() == old(self).promised(),
            final(self).spec_resident() <= capacity,
            old(self).spec_resident() <= capacity ==> final(self).pages() == old(self).pages()
                && r == 0,
            forall|k: u64|
                #[trigger] is_ready(final(self).pages(), k) ==> is_ready(old(self).pages(), k) && old(self).pages()[k]->pin == final(self).pages()[k]->pin,
            thinned(old(self).pages(), final(self).pages()),
    {
        let ghost before = *self;
        let mut gone: u64 = 0;
        while self.resident > capacity
            invariant
                self.wf(rule),
                before == *old(self),
                rule.budget == *budget,
                self.pending_pushes == before.pending_pushes,
                self.map@ == before.map@ && gone == 0 && self.resident == before.resident
                    || before.resident > capacity,
                forall|k: u64|
                    #[trigger] is_ready(self.map@, k) ==> is_ready(before.map@, k)
                        && before.map@[k]->pin == self.map@[k]->pin,
                thinned(before.map@, self.map@),
            decreases self.map@.len(),
        {
            let ghost mid = *self;
            let one = self.evict_one(budget, Ghost(rule));
            if one.is_none() {
                proof {
                    let f = |s: Slot| slot_bytes(s);
                    assert forall|k: u64| #[trigger] mid.map@.contains_key(k) implies f(mid.map@[k])
                        == 0 by {
                        assert(!is_ready(mid.map@, k));
                    }
                    lemma_sum_zero(mid.map@, f);
                }
                return gone;
            }
            gone = gone.saturating_add(1);
            proof {
                lemma_thinned(before.map@, mid.map@, self.map@, one->Some_0);
                assert forall|k: u64| #[trigger] is_ready(self.map@, k) implies is_ready(
                    before.map@,
                    k,
                ) && before.map@[k]->pin == self.map@[k]->pin by {
                    assert(is_ready(mid.map@, k));
                }
            }
        }
        gone
    }
}

/// Tables with the same pages are the same when there are none.
proof fn lemma_nothing_ready(a: Map<u64, Slot>, b: Map<u64, Slot>)
    requires
        same_pages(a, b),
        forall|k: u64| !#[trigger] is_ready(a, k),
    ensures
        a == b,
{
    assert forall|k: u64| #[trigger] a.contains_key(k) implies a[k] == b[k] by {
        assert(!is_ready(a, k));
        assert(same_slot(a[k], b[k]));
    }
    assert(a =~= b);
}

} // verus!

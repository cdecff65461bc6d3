//! The root pages that trees asked a store to keep.

use std::collections::HashMap;
use std::sync::atomic::{AtomicBool, Ordering};
use std::sync::Arc;

use vstd::prelude::*;
use vstd::rwlock::RwLockPredicate;
use vstd::std_specs::hash::*;

use crate::budget::{self, hash_table_bytes, hash_table_peak_bytes, Bookkeeping, Budget};
use crate::cache::shard::{self, shrink_table, table_capacity};
use crate::page::PagePin;
use crate::store::{self, PageFile};

verus! {

broadcast use vstd::std_specs::hash::group_hash_axioms;

/// One entry of the retained roots table.
pub const ROOT_ENTRY_BYTES: usize = 32;

/// A root page a tree asked to keep.
pub struct Kept {
    pin: PagePin,
    /// Whether the tree is still there. A tree that goes away clears it, and the page goes
    /// the next time the table is looked at.
    alive: Arc<AtomicBool>,
}

impl Kept {
    /// The page.
    pub closed spec fn spec_pin(&self) -> PagePin {
        self.pin
    }

    /// The flag of the tree.
    pub closed spec fn spec_alive(&self) -> Arc<AtomicBool> {
        self.alive
    }

    /// Whether the flag of the tree was read, and this is what it said.
    pub closed spec fn told(&self, alive: bool) -> bool {
        call_ensures(AtomicBool::load, (&*self.alive, Ordering::Acquire), alive)
    }

    /// Keeps a page.
    pub(crate) fn new(pin: PagePin, alive: Arc<AtomicBool>) -> (r: Kept)
        ensures
            r.spec_pin() == pin,
            r.spec_alive() == alive,
    {
        Kept { pin, alive }
    }

    /// Whether the tree says that it is still there.
    fn is_alive(&self) -> (r: bool)
        ensures
            self.told(r),
    {
        self.alive.load(Ordering::Acquire)
    }
}

/// Root pages the trees asked to keep, with what the table holding them costs.
pub struct RetainedRoots {
    roots: HashMap<u64, Kept>,
    /// What the table could hold at the bucket count it has now.
    ///
    /// Tracked by hand because `HashMap::capacity` is what the table will still take
    /// before it grows, and that falls as entries are removed although the buckets stay
    /// exactly where they are. Charging from it would give back memory that is still
    /// held.
    slots: usize,
    /// Charged by what the table has allocated rather than per entry: a table holds its
    /// slots after the entries are gone, and a store can outlive the database that made
    /// it, through a reader still holding it. Per-entry charges would leave those slots
    /// accounted to nobody, with nothing left that could give them back.
    book: Bookkeeping,
}

/// What is always true of the retained roots: they are pages of the file.
pub struct RootsRule {
    pub file: PageFile,
    pub budget: Arc<Budget>,
}

impl RwLockPredicate<RetainedRoots> for RootsRule {
    closed spec fn inv(self, v: RetainedRoots) -> bool {
        &&& v.book.on(self.budget)
        &&& forall|tree: u64| #[trigger]
            v.roots@.contains_key(tree) ==> store::pin_good(
                self.file,
                self.budget,
                v.roots@[tree].pin,
            )
    }
}

/// What a table costs that has so many slots.
pub open spec fn slots_cost(slots: usize) -> u64 {
    budget::capped(budget::table_bytes(slots as nat, ROOT_ENTRY_BYTES as nat))
}

/// The length of a page kept.
pub open spec fn page_len() -> spec_fn(Kept) -> nat {
    |k: Kept| k.spec_pin()@.len()
}

/// How many bytes of page some roots hold.
pub open spec fn kept_bytes(kept: Map<u64, Kept>) -> nat {
    shard::total(kept, page_len(), kept.dom())
}

impl RetainedRoots {
    /// The pages kept, by the tree they are kept for.
    pub closed spec fn kept(&self) -> Map<u64, Kept> {
        self.roots@
    }

    /// How many entries the table has allocated room for.
    pub closed spec fn spec_slots(&self) -> usize {
        self.slots
    }

    /// What is charged for the table.
    pub closed spec fn charged(&self) -> u64 {
        self.book.spec_bytes()
    }

    /// Whether a page is kept for a tree.
    pub open spec fn holds(&self, tree: u64, pin: PagePin) -> bool {
        self.kept().contains_key(tree) && self.kept()[tree].spec_pin() == pin
    }

    /// Whether what is charged is what the table takes, or the budget did not have what is
    /// missing.
    pub open spec fn settled(&self, budget: Arc<Budget>) -> bool {
        ||| self.charged() == slots_cost(self.spec_slots())
        ||| self.charged() < slots_cost(self.spec_slots()) && budget.refused(
            (slots_cost(self.spec_slots()) - self.charged()) as u64,
        )
    }

    /// Whether the roots that are left are those of trees that said they were there, and
    /// those that went are of trees that said they were gone, or of this tree.
    pub open spec fn purged(&self, from: RetainedRoots, tree: Option<u64>) -> bool {
        let (a, b) = (from.kept(), self.kept());
        &&& forall|t: u64| #[trigger]
            b.contains_key(t) ==> a.contains_key(t) && b[t] == a[t] && tree != Some(t) && a[t].told(
                true,
            )
        &&& forall|t: u64| #[trigger]
            a.contains_key(t) && !b.contains_key(t) ==> tree == Some(t) || a[t].told(false)
    }

    /// Whether a page was put in for a tree, or there was no memory for the table to take one
    /// more.
    pub open spec fn took(&self, from: RetainedRoots, budget: Arc<Budget>, tree: u64, kept: Kept) -> bool {
        ||| self.kept() == from.kept().insert(tree, kept) && self.settled(budget)
        ||| {
            &&& self.kept() == from.kept()
            &&& self.charged() == from.charged()
            &&& exists|capacity: usize|
                {
                    let want = #[trigger] from.peak(capacity);
                    want > from.charged() && budget.refused((want - from.charged()) as u64)
                }
        }
    }

    /// What the table takes at its peak to hold one more, where it has this capacity.
    pub open spec fn peak(&self, capacity: usize) -> u64 {
        budget::capped(
            budget::table_peak_bytes(
                self.spec_slots() as nat,
                capacity as nat,
                self.kept().len(),
                ROOT_ENTRY_BYTES as nat,
            ),
        )
    }

    /// No roots.
    pub(crate) fn new() -> (r: RetainedRoots)
        ensures
            forall|rule: RootsRule| #[trigger] rule.inv(r),
            r.kept() == Map::<u64, Kept>::empty(),
            r.charged() == 0,
    {
        RetainedRoots { roots: HashMap::new(), slots: 0, book: Bookkeeping::new() }
    }

    /// The page kept for a tree.
    pub(crate) fn find(&self, tree: u64, Ghost(rule): Ghost<RootsRule>) -> (r: Option<PagePin>)
        requires
            rule.inv(*self),
        ensures
            match r {
                Some(pin) => self.holds(tree, pin) && store::pin_good(rule.file, rule.budget, pin),
                None => !self.kept().contains_key(tree),
            },
    {
        match self.roots.get(&tree) {
            Some(kept) => Some(kept.pin.clone()),
            None => None,
        }
    }

    /// The trees whose roots go: those that say they are gone, and this one.
    fn departed(&self, tree: Option<u64>) -> (r: Vec<u64>)
        ensures
            forall|i: int|
                0 <= i < r@.len() ==> self.kept().contains_key(#[trigger] r@[i]) && (tree == Some(
                    r@[i],
                ) || self.kept()[r@[i]].told(false)),
            forall|t: u64| #[trigger]
                self.kept().contains_key(t) ==> r@.contains(t) || tree != Some(t)
                    && self.kept()[t].told(true),
    {
        let mut gone: Vec<u64> = Vec::new();
        for entry in it: self.roots.iter()
            invariant
                it.seq() == vstd::std_specs::iter::IteratorSpec::remaining(&spec_hash_map_iter(&self.roots)),
                forall|i: int|
                    0 <= i < gone@.len() ==> self.kept().contains_key(#[trigger] gone@[i]) && (tree
                        == Some(gone@[i]) || self.kept()[gone@[i]].told(false)),
                forall|j: int|
                    0 <= j < it.index() ==> gone@.contains(*(#[trigger] it.seq()[j]).0) || tree
                        != Some(*it.seq()[j].0) && self.kept()[*it.seq()[j].0].told(true),
        {
            let (t, kept) = entry;
            let ghost was = gone@;
            let ghost n = it.index();
            assert(self.roots@.contains_key(*it.seq()[n].0));
            let asked = match tree {
                Some(x) => x == *t,
                None => false,
            };
            if asked || !kept.is_alive() {
                gone.push(*t);
                proof {
                    assert(gone@[was.len() as int] == *t);
                    assert forall|j: int| 0 <= j < n && was.contains(
                        *(#[trigger] it.seq()[j]).0,
                    ) implies gone@.contains(*it.seq()[j].0) by {
                        let i = choose|i: int| 0 <= i < was.len() && was[i] == *it.seq()[j].0;
                        assert(gone@[i] == *it.seq()[j].0);
                    }
                }
            }
        }
        proof {
            let l = vstd::std_specs::iter::IteratorSpec::remaining(&spec_hash_map_iter(&self.roots));
            assert forall|t: u64| #[trigger] self.kept().contains_key(t) implies gone@.contains(t)
                || tree != Some(t) && self.kept()[t].told(true) by {
                assert(l.contains((&t, &self.roots@[t])));
                let j = choose|j: int| 0 <= j < l.len() && l[j] == (&t, &self.roots@[t]);
                assert(*l[j].0 == t);
            }
        }
        gone
    }

    /// Lets go of the roots of trees that are gone, and of one tree's.
    ///
    /// The table keeps its slots after an entry goes, so they are given back once half of
    /// them are idle. Without this a store outliving its database would hold a table sized
    /// for every tree it ever had.
    pub(crate) fn purge(
        &mut self,
        tree: Option<u64>,
        budget: &Arc<Budget>,
        Ghost(rule): Ghost<RootsRule>,
    )
        requires
            rule.inv(*old(self)),
            rule.budget == *budget,
        ensures
            rule.inv(*final(self)),
            final(self).purged(*old(self), tree),
            final(self).settled(*budget),
    {
        let ghost from = self.roots@;
        let gone = self.departed(tree);
        let mut i: usize = 0;
        while i < gone.len()
            invariant
                rule.inv(*self),
                from == old(self).roots@,
                i <= gone@.len(),
                self.book == old(self).book,
                forall|t: u64| #[trigger]
                    self.roots@.contains_key(t) ==> from.contains_key(t) && self.roots@[t]
                        == from[t],
                forall|t: u64| #[trigger]
                    from.contains_key(t) && !self.roots@.contains_key(t) ==> gone@.contains(t),
                forall|j: int| 0 <= j < i ==> !self.roots@.contains_key(#[trigger] gone@[j]),
            decreases gone@.len() - i,
        {
            let left = self.roots.remove(&gone[i]);
            proof {
                assert(gone@.contains(gone@[i as int]));
            }
            i += 1;
        }
        let ghost rest = self.roots@;
        proof {
            assert(self.purged(*old(self), tree)) by {
                assert forall|t: u64| #[trigger] self.kept().contains_key(t) implies tree != Some(t)
                    && from[t].told(true) by {
                    if gone@.contains(t) {
                        let j = choose|j: int| 0 <= j < gone@.len() && gone@[j] == t;
                        assert(!self.roots@.contains_key(gone@[j]));
                    }
                    assert(old(self).kept().contains_key(t));
                }
                assert forall|t: u64| #[trigger]
                    from.contains_key(t) && !self.kept().contains_key(t) implies tree == Some(t)
                    || from[t].told(false) by {
                    assert(gone@.contains(t));
                    let j = choose|j: int| 0 <= j < gone@.len() && gone@[j] == t;
                    assert(old(self).kept().contains_key(gone@[j]));
                }
            }
        }
        // Shrinking allocates the smaller table before it lets the bigger one go, so both
        // are reserved while the entries move, and the shrink is skipped when that does not
        // fit.
        if self.slots / 2 > self.roots.len() || (self.slots % 2 == 1 && self.slots / 2
            == self.roots.len()) {
            let during = hash_table_bytes(self.slots, ROOT_ENTRY_BYTES).saturating_add(
                hash_table_bytes(self.roots.len(), ROOT_ENTRY_BYTES),
            );
            if self.book.settle(during, budget).is_ok() {
                let before = table_capacity(&self.roots);
                shrink_table(&mut self.roots);
                // A table that was not rebuilt still has the buckets it had, whatever its
                // capacity reads now.
                let after = table_capacity(&self.roots);
                if after != before {
                    self.slots = after;
                }
            }
        }
        self.settle(budget);
    }

    /// Brings the charge to what the table takes.
    fn settle(&mut self, budget: &Arc<Budget>)
        requires
            old(self).book.on(*budget),
        ensures
            final(self).roots == old(self).roots,
            final(self).slots == old(self).slots,
            final(self).book.on(*budget),
            final(self).settled(*budget),
    {
        let want = hash_table_bytes(self.slots, ROOT_ENTRY_BYTES);
        let ghost had = self.book.spec_bytes();
        let r = self.book.settle(want, budget);
        proof {
            if r is Err {
                let lacking = (want - had) as u64;
                assert(budget.asked(lacking, Err::<(), crate::error::Error>(r->Err_0)));
                assert(budget.refused(lacking));
            }
        }
    }

    /// Takes a page in, where there is memory for the table to hold one more.
    pub(crate) fn take_in(
        &mut self,
        tree: u64,
        kept: Kept,
        budget: &Arc<Budget>,
        Ghost(rule): Ghost<RootsRule>,
    )
        requires
            rule.inv(*old(self)),
            rule.budget == *budget,
            store::pin_good(rule.file, rule.budget, kept.spec_pin()),
        ensures
            rule.inv(*final(self)),
            final(self).took(*old(self), *budget, tree, kept),
    {
        // Reserved before the entry goes in, at the most the table will hold while it
        // grows: the old allocation and the new one are both live until the move is
        // done.
        let capacity = table_capacity(&self.roots);
        let want = hash_table_peak_bytes(
            self.slots,
            capacity,
            self.roots.len(),
            ROOT_ENTRY_BYTES,
        );
        let ghost had = self.book.spec_bytes();
        let r = self.book.settle(want, budget);
        proof {
            assert(want == old(self).peak(capacity));
            if r is Err {
                let lacking = (want - had) as u64;
                assert(budget.asked(lacking, Err::<(), crate::error::Error>(r->Err_0)));
                assert(budget.refused(lacking));
            }
        }
        if r.is_err() {
            return;
        }
        self.roots.insert(tree, kept);
        let now = table_capacity(&self.roots);
        if now > self.slots {
            self.slots = now;
        }
        // Back down to what it actually grew to, which is at most what was asked for.
        self.settle(budget);
    }

    /// How many bytes of page the roots hold.
    pub(crate) fn held_bytes(&self) -> (r: u64)
        ensures
            r == budget::capped(kept_bytes(self.kept()) as int),
    {
        let ghost m = self.roots@;
        let ghost l = vstd::std_specs::iter::IteratorSpec::remaining(&spec_hash_map_iter(&self.roots));
        let mut sum: u64 = 0;
        let ghost mut seen: Set<u64> = Set::empty();
        for entry in it: self.roots.iter()
            invariant
                m == self.roots@,
                l == vstd::std_specs::iter::IteratorSpec::remaining(&spec_hash_map_iter(&self.roots)),
                it.seq() == l,
                l.no_duplicates(),
                seen.finite(),
                sum == budget::capped(shard::total(m, page_len(), seen) as int),
                forall|k: u64| #[trigger]
                    seen.contains(k) ==> exists|j: int|
                        0 <= j < it.index() && *(#[trigger] l[j]).0 == k,
                forall|j: int| 0 <= j < it.index() ==> seen.contains(*(#[trigger] l[j]).0),
        {
            let (k, kept) = entry;
            let ghost n = it.index();
            proof {
                assert(m.contains_key(*l[n].0) && m[*l[n].0] == *l[n].1);
                if seen.contains(*k) {
                    let j = choose|j: int| 0 <= j < n && *(#[trigger] l[j]).0 == *k;
                    assert(m.contains_key(*l[j].0) && m[*l[j].0] == *l[j].1);
                    assert(l[j] == l[n]);
                    assert(false);
                }
                let more = seen.insert(*k);
                shard::lemma_total(m, page_len(), more, *k);
                assert(more.remove(*k) =~= seen);
                seen = more;
            }
            sum = sum.saturating_add(kept.pin.len() as u64);
        }
        proof {
            assert(seen =~= m.dom()) by {
                assert forall|k: u64| m.dom().contains(k) implies seen.contains(k) by {
                    assert(m.contains_key(k));
                    assert(l.contains((&k, &m[k])));
                    let j = choose|j: int| 0 <= j < l.len() && l[j] == (&k, &m[k]);
                    assert(seen.contains(*l[j].0));
                }
                assert forall|k: u64| seen.contains(k) implies m.dom().contains(k) by {
                    let j = choose|j: int| 0 <= j < l.len() && *(#[trigger] l[j]).0 == k;
                    assert(m.contains_key(*l[j].0));
                }
            }
        }
        sum
    }
}

/// The roots of trees that are gone are let go of, and so is that of the tree that is to be replaced;
/// those of trees in use stay as they are.
pub(crate) proof fn lemma_purged(a: RetainedRoots, b: RetainedRoots, tree: Option<u64>, t: u64)
    requires
        b.purged(a, tree),
    ensures
        tree == Some(t) ==> !b.kept().contains_key(t),
        a.kept().contains_key(t) && tree != Some(t) && !a.kept()[t].told(false)
            ==> b.kept().contains_key(t) && b.kept()[t] == a.kept()[t],
        !a.kept().contains_key(t) ==> !b.kept().contains_key(t),
        a.kept().contains_key(t) && !a.kept()[t].told(true) ==> !b.kept().contains_key(t),
{
    let (x, y) = (a.kept(), b.kept());
    if y.contains_key(t) {
        assert(x.contains_key(t) && y[t] == x[t] && tree != Some(t));
    }
    if x.contains_key(t) && !y.contains_key(t) {
        assert(tree == Some(t) || x[t].told(false));
    }
}

} // verus!

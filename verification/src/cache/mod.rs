//! Bounded page cache with de-duplicated loads.
//!
//! Sharded tables plus a CLOCK eviction ring each. Two rules shape it:
//!
//! * No I/O, decompression or user code runs while a shard is locked. A miss marks the slot
//!   as in flight, releases the lock, loads, then re-takes the lock to publish.
//! * Concurrent misses on the same page collapse into one load. Waiters look again until
//!   the marker is gone, whether the load succeeded or failed.
//!
//! Failures are not cached: a waiter that finds the marker of a failed load gone retries
//! the load itself. That costs at most one redundant read per waiting thread on a
//! persistently bad page, and keeps a transient I/O error from being remembered as a
//! permanent one.
//!
//! Eviction only drops the cache's own reference. A page a guard still holds stays alive
//! and stays charged to the budget until that guard goes away.

use std::sync::atomic::{AtomicBool, AtomicUsize, Ordering};
use std::sync::Arc;

use vstd::prelude::*;
use vstd::rwlock::{RwLock, RwLockPredicate};

use crate::budget::{Budget, Charge, BUFFER_OVERHEAD};
use crate::error::{BudgetInfo, Error};
use crate::locked;
use crate::metrics::Metrics;
use crate::page::PagePin;

pub mod laws;
pub mod shard;

use self::shard::{Found, ShardInner, ShardRule, Slot};

verus! {

/// Upper bound on shards, so the bookkeeping a caller can ask for stays bounded too.
pub const MAX_SHARDS: usize = 1024;

/// A load that is being worked on. Going away lowers its flag, also where the load unwinds, so
/// that whoever waits for the page stops waiting for this load.
struct InFlight {
    alive: Arc<AtomicBool>,
}

impl Drop for InFlight {
    fn drop(&mut self)
        opens_invariants none
        no_unwind
    {
        locked::mark_gone(&self.alive);
    }
}

/// Whether the flag of a load was read, and was up or down.
pub closed spec fn in_work(alive: &AtomicBool, up: bool) -> bool {
    call_ensures(AtomicBool::load, (alive, Ordering::Acquire), up)
}

/// Reads the flag of a load.
fn still_up(alive: &AtomicBool) -> (r: bool)
    ensures
        in_work(alive, r),
{
    alive.load(Ordering::Acquire)
}

/// What one in-flight load's marker costs: a map entry and its share of the table.
pub const LOADING_SLOT_BYTES: u64 = 128;

/// What one shard costs before it holds anything.
pub const SHARD_BYTES: u64 = 176;

/// How many times a miss asks again when another thread grew the shard in between.
pub const RESERVE_ATTEMPTS: u32 = 8;

/// What is always true of a shard of a cache: it is in order, and holds no more than its
/// share.
pub struct CacheRule {
    pub shard: ShardRule,
    pub capacity: u64,
}

impl RwLockPredicate<ShardInner> for CacheRule {
    open spec fn inv(self, v: ShardInner) -> bool {
        v.wf(self.shard) && v.spec_resident() <= self.capacity
    }
}

/// A bounded, sharded page cache.
pub struct PageCache {
    shards: Vec<RwLock<ShardInner, CacheRule>>,
    capacity_per_shard: u64,
    capacity: u64,
    metrics: Arc<Metrics>,
    next_victim_shard: AtomicUsize,
    /// Where the shards' own tables are charged.
    budget: Arc<Budget>,
    good: Ghost<spec_fn(u64, PagePin) -> bool>,
}

/// Shards a request for `requested` actually produces: a power of two.
pub open spec fn spec_shard_count(requested: usize) -> nat {
    crate::budget::doubled_to(
        1,
        if requested > MAX_SHARDS {
            MAX_SHARDS as nat
        } else {
            requested as nat
        },
    )
}

/// Which of `shards` shards a page belongs to: its ordinal, mixed.
pub open spec fn shard_for(ordinal: u64, shards: nat) -> int {
    (ordinal.wrapping_mul(0x9E37_79B9_7F4A_7C15) >> 32) as int % shards as int
}

/// How many pages the first `n` of some shards hold.
pub open spec fn pages_of(seen: Seq<ShardInner>, n: nat) -> nat
    decreases n,
{
    if n == 0 {
        0
    } else {
        pages_of(seen, (n - 1) as nat) + shard::sum(
            seen[n - 1].pages(),
            |s: Slot| shard::slot_count(s),
        )
    }
}

/// Bytes of the pages that the first `n` of some shards hold.
pub open spec fn bytes_of(seen: Seq<ShardInner>, n: nat) -> nat
    decreases n,
{
    if n == 0 {
        0
    } else {
        bytes_of(seen, (n - 1) as nat) + seen[n - 1].spec_resident() as nat
    }
}

/// One step of making room: a shard, before and after, and what went.
pub struct Step {
    pub shard: int,
    pub before: ShardInner,
    pub after: ShardInner,
    pub gone: Option<u64>,
}

/// Bytes that went in the first `n` steps.
pub open spec fn gone_in(steps: Seq<Step>, n: nat) -> nat
    decreases n,
{
    if n == 0 {
        0
    } else {
        gone_in(steps, (n - 1) as nat) + match steps[n - 1].gone {
            Some(bytes) => bytes as nat,
            None => 0,
        }
    }
}

/// The shard whose turn is after this one's.
pub open spec fn turn_after(shard: int, shards: nat) -> int {
    if shard + 1 < shards {
        shard + 1
    } else {
        0
    }
}

/// One time that a miss of a page had to look again: another thread was loading it, or had put it
/// or a load of it there after this much was reserved for an entry that took `needed`.
pub struct Round {
    pub waited: bool,
    pub reserved: u64,
    pub needed: u64,
}

impl PageCache {
    /// Whether a shard was `a` when it was taken, and was put back as `b`.
    pub closed spec fn passed(&self, i: int, a: ShardInner, b: ShardInner) -> bool {
        locked::passed(&self.shards@[i], a, b)
    }

    /// Whether each of the shards was looked at, and this is what was seen.
    pub open spec fn saw(&self, seen: Seq<ShardInner>) -> bool {
        &&& seen.len() == self.spec_shards()
        &&& forall|i: int| 0 <= i < seen.len() ==> self.passed(i, #[trigger] seen[i], seen[i])
    }

    /// Whether the bytes of the shards were added up.
    pub open spec fn weighed(&self, n: u64) -> bool {
        exists|seen: Seq<ShardInner>| #[trigger] self.saw(seen) && n == bytes_of(seen, seen.len())
    }

    /// Whether a page was looked for in its shard and was not there: either nothing was, and
    /// one more entry would cost this much, or a load of it was in flight.
    pub open spec fn missed(&self, ordinal: u64, growth: u64, in_flight: bool) -> bool {
        exists|a: ShardInner, b: ShardInner|
            #[trigger] self.passed(shard_for(ordinal, self.spec_shards()), a, b)
                && shard::same_pages(a.pages(), b.pages()) && b.grows_by(growth) && if in_flight {
                a.pages().contains_key(ordinal) && a.pages()[ordinal] is Loading
            } else {
                !a.pages().contains_key(ordinal)
            }
    }

    /// What is reserved for the marker of a load, where one more entry costs `growth`.
    pub open spec fn marker_cost(growth: u64) -> u64 {
        crate::budget::capped(LOADING_SLOT_BYTES + growth)
    }

    /// Whether the marker of a load went in: the page was not there, room for the marker was
    /// reserved, and the shard took it.
    pub open spec fn started<R: Fn(u64) -> Result<Charge, Error>>(
        &self,
        ordinal: u64,
        reserve: R,
    ) -> bool {
        exists|growth: u64, charge: Charge, needed: u64|
            #[trigger] self.missed(ordinal, growth, false) && #[trigger] reserve.ensures(
                (PageCache::marker_cost(growth),),
                Ok::<Charge, Error>(charge),
            ) && #[trigger] self.marked(
                shard_for(ordinal, self.spec_shards()),
                ordinal,
                charge.spec_bytes(),
                (true, needed),
            )
    }

    /// Whether the marker of a load came out that nothing works on any more, where there was
    /// one, and nothing else changed.
    pub open spec fn tidied(&self, ordinal: u64) -> bool {
        exists|a: ShardInner, b: ShardInner|
            #[trigger] self.passed(shard_for(ordinal, self.spec_shards()), a, b) && {
                ||| b == a
                ||| {
                    &&& a.pages().contains_key(ordinal)
                    &&& a.pages()[ordinal] matches Slot::Loading { alive }
                    &&& in_work(&alive, false)
                    &&& b.pages() == a.pages().remove(ordinal)
                    &&& b.promised() == PageCache::one_less(a.promised())
                }
            }
    }

    /// Whether the marker of a load came out, and the page it gave was listed. The page stays,
    /// and so do the others, unless they are more than the shard may hold or the budget has
    /// no room for its table; then pages go, this one or others.
    pub open spec fn listed(&self, ordinal: u64, pin: PagePin, bytes: u64) -> bool {
        exists|a: ShardInner, b: ShardInner|
            #[trigger] self.passed(shard_for(ordinal, self.spec_shards()), a, b) && b.promised()
                == PageCache::one_less(a.promised()) && {
                let others = a.pages().remove(ordinal);
                let all = others.insert(ordinal, Slot::Ready { pin, bytes, referenced: true });
                let held = shard::sum(others, |s: Slot| shard::slot_bytes(s));
                &&& shard::thinned(all, b.pages())
                &&& held + bytes <= self.shard_capacity() && a.pages().len() < usize::MAX
                    && !shard::unpaid(&self.spec_budget()) ==> b.pages() == all
            }
    }

    /// Whether the marker of a load came out, and nothing went in for it.
    pub open spec fn cleared(&self, ordinal: u64) -> bool {
        exists|a: ShardInner, b: ShardInner|
            #[trigger] self.passed(shard_for(ordinal, self.spec_shards()), a, b) && b.promised()
                == PageCache::one_less(a.promised()) && b.pages() == a.pages().remove(ordinal)
    }

    /// A count less one, or none.
    pub open spec fn one_less(n: usize) -> int {
        if n == 0 {
            0
        } else {
            n - 1
        }
    }

    /// Whether each of these times a load that another thread had in flight was waited for, and
    /// counted, or the page or a load of it was there by the time its marker was to go in.
    pub open spec fn patient(&self, ordinal: u64, rounds: Seq<Round>) -> bool {
        forall|k: int| 0 <= k < rounds.len() ==> self.sat_out(ordinal, #[trigger] rounds[k])
    }

    /// Whether another thread was waited for once.
    pub open spec fn sat_out(&self, ordinal: u64, round: Round) -> bool {
        if round.waited {
            &&& self.missed(ordinal, round.needed, true)
            &&& self.spec_metrics().noted_wait()
            &&& self.tidied(ordinal)
        } else {
            &&& self.marked(
                shard_for(ordinal, self.spec_shards()),
                ordinal,
                round.reserved,
                (false, round.needed),
            )
            &&& round.reserved >= round.needed
        }
    }

    /// Whether a miss gave up: other threads' loads of the page were waited for as many times as
    /// can be counted, or other threads grew the shard past what was reserved each of the times
    /// it was tried.
    pub open spec fn crowded_out(&self, ordinal: u64, needed: u64) -> bool {
        ||| exists|rounds: Seq<Round>|
            #[trigger] self.patient(ordinal, rounds) && rounds.len() == u64::MAX
                && rounds[u64::MAX - 1].needed == needed
        ||| exists|tries: Seq<(u64, u64)>|
            #[trigger] self.outgrown(ordinal, tries) && tries.len() == RESERVE_ATTEMPTS + 1
                && tries[RESERVE_ATTEMPTS as int].1 == needed
    }

    /// Whether the marker of a load did not go in any of these times, each with what was
    /// reserved and what the entry would have taken, which was more.
    pub open spec fn outgrown(&self, ordinal: u64, tries: Seq<(u64, u64)>) -> bool {
        forall|k: int|
            0 <= k < tries.len() ==> self.marked(
                shard_for(ordinal, self.spec_shards()),
                ordinal,
                (#[trigger] tries[k]).0,
                (false, tries[k].1),
            ) && tries[k].0 < tries[k].1
    }

    /// Whether the pages of the shards were counted.
    pub open spec fn counted(&self, n: usize) -> bool {
        exists|seen: Seq<ShardInner>|
            #[trigger] self.saw(seen) && n == (if pages_of(seen, seen.len()) > usize::MAX {
                usize::MAX as nat
            } else {
                pages_of(seen, seen.len())
            })
    }

    /// Whether a page was looked up in its shard, this was found, and it counts as used.
    pub open spec fn looked_up(&self, ordinal: u64, r: Option<PagePin>) -> bool {
        exists|a: ShardInner, b: ShardInner|
            #[trigger] self.passed(shard_for(ordinal, self.spec_shards()), a, b)
                && shard::same_pages(a.pages(), b.pages()) && match r {
                Some(pin) => shard::is_ready(a.pages(), ordinal) && a.pages()[ordinal]->pin == pin
                    && b.pages()[ordinal]->referenced,
                None => !shard::is_ready(a.pages(), ordinal),
            }
    }

    /// Whether the marker of a load was put in where nothing was listed and what was reserved
    /// covers what the entry takes, and nowhere else.
    pub open spec fn marked(&self, i: int, ordinal: u64, reserved: u64, r: (bool, u64)) -> bool {
        exists|a: ShardInner, b: ShardInner|
            #[trigger] self.passed(i, a, b) && a.grows_by(r.1) && r.0 == (!a.pages().contains_key(
                ordinal,
            ) && reserved >= r.1) && if r.0 {
                &&& b.pages().dom() == a.pages().dom().insert(ordinal)
                &&& b.pages()[ordinal] is Loading
                &&& shard::same_pages(a.pages(), b.pages().remove(ordinal))
                &&& b.promised() == (if a.promised() == usize::MAX {
                    usize::MAX as int
                } else {
                    a.promised() + 1
                })
            } else {
                shard::same_pages(a.pages(), b.pages()) && b.promised() == a.promised()
            }
    }

    /// Whether a shard was looked at for what its table and ring cost and what is charged.
    pub open spec fn accounted(&self, i: int, r: (u64, u64)) -> bool {
        exists|a: ShardInner| #[trigger] self.passed(i, a, a) && a.costs(r.0) && r.1 == a.charged()
    }

    /// Whether a shard was looked at for its slots.
    pub open spec fn measured(&self, i: int, r: (usize, usize)) -> bool {
        exists|a: ShardInner|
            #[trigger] self.passed(i, a, a) && r.0 == a.pages().len() && r.1 == a.spec_slots()
    }

    /// Whether a step was taken: a page of the shard went and was counted, or there was none.
    pub open spec fn stepped(&self, s: Step) -> bool {
        &&& 0 <= s.shard < self.spec_shards()
        &&& self.passed(s.shard, s.before, s.after)
        &&& match s.gone {
            Some(bytes) => shard::one_evicted(s.before.pages(), s.after.pages(), bytes)
                && self.spec_metrics().noted_evictions(1),
            None => s.after.pages() == s.before.pages() && forall|k: u64|
                !#[trigger] shard::is_ready(s.before.pages(), k),
        }
    }

    /// Whether steps were taken shard by shard, none after there was enough.
    pub open spec fn walked(&self, steps: Seq<Step>, target: u64) -> bool {
        &&& forall|k: int| 0 <= k < steps.len() ==> self.stepped(#[trigger] steps[k])
        &&& forall|k: int, l: int|
            0 <= k && l == k + 1 && l < steps.len() ==> (#[trigger] steps[l]).shard == turn_after(
                (#[trigger] steps[k]).shard,
                self.spec_shards(),
            )
        &&& forall|k: nat| k < steps.len() ==> #[trigger] gone_in(steps, k) < target
    }

    /// Whether the last `n` steps found no page.
    pub open spec fn idle(steps: Seq<Step>, n: int) -> bool {
        &&& 0 <= n <= steps.len()
        &&& forall|k: int| steps.len() - n <= k < steps.len() ==> (#[trigger] steps[k]).gone is None
    }

    /// Whether room was made: pages went until there was enough, or until every shard in turn
    /// had none, or for as many steps as can be counted.
    pub open spec fn made_room(&self, target: u64, r: u64) -> bool {
        exists|steps: Seq<Step>|
            #[trigger] self.walked(steps, target) && r == crate::budget::capped(
                gone_in(steps, steps.len()) as int,
            ) && (r >= target || PageCache::idle(steps, self.spec_shards() as int) || steps.len()
                == u64::MAX)
    }

    /// Which pages may be listed under which ordinals.
    pub closed spec fn good(&self) -> spec_fn(u64, PagePin) -> bool {
        self.good@
    }

    /// The counters.
    pub closed spec fn spec_metrics(&self) -> Arc<Metrics> {
        self.metrics
    }

    /// Where the shards' own tables are charged.
    pub closed spec fn spec_budget(&self) -> Arc<Budget> {
        self.budget
    }

    /// Soft capacity the cache evicts against.
    pub closed spec fn spec_capacity(&self) -> u64 {
        self.capacity
    }

    /// How many shards there are.
    pub closed spec fn spec_shards(&self) -> nat {
        self.shards@.len()
    }

    /// How many bytes of pages one shard holds at most.
    pub closed spec fn shard_capacity(&self) -> u64 {
        self.capacity_per_shard
    }

    spec fn rule(&self) -> CacheRule {
        CacheRule {
            shard: ShardRule { good: self.good@, budget: self.budget },
            capacity: self.capacity_per_shard,
        }
    }

    #[verifier::type_invariant]
    spec fn ruled(&self) -> bool {
        &&& 1 <= self.shards@.len() <= MAX_SHARDS
        &&& forall|i: int|
            0 <= i < self.shards@.len() ==> (#[trigger] self.shards@[i]).pred() == self.rule()
        &&& self.capacity_per_shard == (if self.capacity / self.shards@.len() as u64 >= 1 {
            self.capacity / self.shards@.len() as u64
        } else {
            1
        })
    }

    /// Shards a request for `requested` actually produces.
    ///
    /// Separate from [`PageCache::new`] so a caller can reserve the memory the shard
    /// array needs before the array exists.
    pub fn shard_count(requested: usize) -> (r: usize)
        ensures
            r == spec_shard_count(requested),
            1 <= r <= MAX_SHARDS,
    {
        let want = if requested > MAX_SHARDS {
            MAX_SHARDS
        } else {
            requested
        };
        let mut n: usize = 1;
        while n < want
            invariant
                1 <= n <= MAX_SHARDS,
                want <= MAX_SHARDS,
                n == 1 || n == 2 || n == 4 || n == 8 || n == 16 || n == 32 || n == 64 || n == 128
                    || n == 256 || n == 512 || n == 1024,
                crate::budget::doubled_to(n as nat, want as nat) == crate::budget::doubled_to(
                    1,
                    want as nat,
                ),
            decreases MAX_SHARDS - n,
        {
            n = 2 * n;
        }
        n
    }

    /// What the shard array costs before a single page is cached.
    ///
    /// The shard count is a caller's number and the array is allocated once per database,
    /// so without this a large shard count spends memory the budget never hears about.
    /// The shards' maps and rings are not counted here: they are charged as they grow,
    /// by what they have actually allocated.
    pub fn bookkeeping_bytes(shards: usize) -> (r: u64)
        ensures
            r == crate::budget::capped(shards * SHARD_BYTES + BUFFER_OVERHEAD),
    {
        let per: u128 = SHARD_BYTES as u128;
        proof {
            assert(0 <= shards * per <= 0xFFFF_FFFF_FFFF_FFFF * 176) by (nonlinear_arith)
                requires
                    0 <= shards <= 0xFFFF_FFFF_FFFF_FFFF,
                    per == 176,
            ;
        }
        let bytes: u128 = (shards as u128) * per + BUFFER_OVERHEAD as u128;
        if bytes > u64::MAX as u128 {
            u64::MAX
        } else {
            bytes as u64
        }
    }

    /// Creates a cache retaining at most `capacity` bytes, spread over `shards`.
    ///
    /// Any page may be listed under any ordinal.
    pub fn new(
        capacity: u64,
        shards: usize,
        metrics: Arc<Metrics>,
        budget: Arc<Budget>,
    ) -> (r: PageCache)
        ensures
            r.spec_capacity() == capacity,
            r.spec_budget() == budget,
            r.spec_metrics() == metrics,
            r.spec_shards() == spec_shard_count(shards),
            forall|o: u64, p: PagePin| #[trigger] (r.good())(o, p),
    {
        PageCache::holding(capacity, shards, metrics, budget, Ghost(|o: u64, p: PagePin| true))
    }

    /// Creates a cache of pages that are good for their ordinals.
    pub(crate) fn holding(
        capacity: u64,
        shards: usize,
        metrics: Arc<Metrics>,
        budget: Arc<Budget>,
        Ghost(good): Ghost<spec_fn(u64, PagePin) -> bool>,
    ) -> (r: PageCache)
        ensures
            r.spec_capacity() == capacity,
            r.spec_budget() == budget,
            r.spec_metrics() == metrics,
            r.spec_shards() == spec_shard_count(shards),
            r.good() == good,
    {
        let n = PageCache::shard_count(shards);
        let share = capacity / (n as u64);
        let capacity_per_shard = if share >= 1 {
            share
        } else {
            1
        };
        let ghost rule = CacheRule {
            shard: ShardRule { good, budget },
            capacity: capacity_per_shard,
        };
        let mut list: Vec<RwLock<ShardInner, CacheRule>> = Vec::new();
        let mut i: usize = 0;
        while i < n
            invariant
                i <= n,
                list@.len() == i,
                forall|j: int| 0 <= j < i ==> (#[trigger] list@[j]).pred() == rule,
            decreases n - i,
        {
            list.push(RwLock::new(ShardInner::new(), Ghost(rule)));
            i += 1;
        }
        PageCache {
            shards: list,
            capacity_per_shard,
            capacity,
            metrics,
            next_victim_shard: AtomicUsize::new(0),
            budget,
            good: Ghost(good),
        }
    }

    /// Which shard a page belongs to.
    fn shard_of(&self, ordinal: u64) -> (r: usize)
        ensures
            r < self.shards@.len(),
            r == shard_for(ordinal, self.spec_shards()),
    {
        proof {
            use_type_invariant(self);
        }
        // Ordinals are dense, so the low bits alone would put every page of a leaf run
        // in the same shard; mix first.
        let mixed = ordinal.wrapping_mul(0x9E37_79B9_7F4A_7C15) >> 32;
        (mixed % (self.shards.len() as u64)) as usize
    }

    /// Soft capacity the cache evicts against.
    pub fn capacity(&self) -> (r: u64)
        ensures
            r == self.spec_capacity(),
    {
        self.capacity
    }

    /// Bytes currently retained by the cache: never more than the capacity, or one for
    /// each shard.
    pub fn resident_bytes(&self) -> (r: u64)
        ensures
            r <= self.spec_capacity() || r <= self.spec_shards(),
            self.weighed(r),
    {
        proof {
            use_type_invariant(self);
        }
        let n = self.shards.len();
        let mut sum: u64 = 0;
        let mut i: usize = 0;
        proof {
            let c = self.capacity as int;
            let k = n as int;
            vstd::arithmetic::div_mod::lemma_fundamental_div_mod(c, k);
            vstd::arithmetic::div_mod::lemma_mod_bound(c, k);
            assert(k * self.capacity_per_shard <= c || self.capacity_per_shard == 1);
        }
        let ghost mut seen: Seq<ShardInner> = Seq::empty();
        while i < n
            invariant
                n == self.shards@.len(),
                i <= n <= MAX_SHARDS,
                seen.len() == i,
                forall|j: int| 0 <= j < i ==> self.passed(j, #[trigger] seen[j], seen[j]),
                sum == bytes_of(seen, i as nat),
                sum <= i * self.capacity_per_shard,
                n * self.capacity_per_shard <= self.capacity || self.capacity_per_shard == 1,
                self.ruled(),
            decreases n - i,
        {
            let (inner, handle) = self.shards[i].acquire_write();
            let ghost (taken, was, one) = (handle, seen, inner);
            let held = inner.resident();
            handle.release_write(inner);
            proof {
                assert(locked::traded(&self.shards@[i as int], one, one, taken));
                assert(self.passed(i as int, one, one));
                seen = seen.push(one);
                lemma_bytes_of(was, seen, i as nat);
                let c = self.capacity_per_shard as int;
                assert((i + 1) * c == i * c + c) by (nonlinear_arith);
                assert((i + 1) * c <= n * c) by (nonlinear_arith)
                    requires
                        i + 1 <= n,
                        0 <= c,
                ;
            }
            sum = sum + held;
            i += 1;
        }
        proof {
            assert(self.saw(seen));
        }
        sum
    }

    /// Number of pages currently retained.
    pub fn len(&self) -> (r: usize)
        ensures
            self.counted(r),
    {
        proof {
            use_type_invariant(self);
        }
        let n = self.shards.len();
        let mut sum: usize = 0;
        let mut i: usize = 0;
        let ghost mut seen: Seq<ShardInner> = Seq::empty();
        while i < n
            invariant
                n == self.shards@.len(),
                i <= n,
                self.ruled(),
                seen.len() == i,
                forall|j: int| 0 <= j < i ==> self.passed(j, #[trigger] seen[j], seen[j]),
                sum == (if pages_of(seen, i as nat) > usize::MAX {
                    usize::MAX as nat
                } else {
                    pages_of(seen, i as nat)
                }),
            decreases n - i,
        {
            let (inner, handle) = self.shards[i].acquire_write();
            let ghost (taken, was, one) = (handle, seen, inner);
            let held = inner.ready(Ghost(self.rule().shard));
            handle.release_write(inner);
            proof {
                assert(locked::traded(&self.shards@[i as int], one, one, taken));
                assert(self.passed(i as int, one, one));
                seen = seen.push(one);
                lemma_pages_of(was, seen, i as nat);
            }
            sum = sum.saturating_add(held);
            i += 1;
        }
        proof {
            assert(self.saw(seen));
        }
        sum
    }

    /// Cache-only lookup. Marks the page as recently used on a hit.
    pub fn get(&self, ordinal: u64) -> (r: Option<PagePin>)
        ensures
            r matches Some(pin) ==> (self.good())(ordinal, pin) && self.spec_metrics().noted_hit(),
            self.looked_up(ordinal, r),
    {
        proof {
            use_type_invariant(self);
        }
        let i = self.shard_of(ordinal);
        let (mut inner, handle) = self.shards[i].acquire_write();
        let ghost (before, taken) = (inner, handle);
        let found = inner.find(ordinal, Ghost(self.rule().shard));
        let ghost after = inner;
        handle.release_write(inner);
        proof {
            assert(locked::traded(&self.shards@[i as int], before, after, taken));
            assert(self.passed(i as int, before, after));
        }
        match found {
            Found::Page(pin) => {
                self.metrics.note_hit();
                Some(pin)
            },
            _ => None,
        }
    }

    /// Looks at the shard of a page: the page, or whether a load is in flight, or what a
    /// marker and the growth it causes would take.
    fn look(&self, i: usize, ordinal: u64) -> (r: (Found, u64))
        requires
            i < self.shards@.len(),
            i == shard_for(ordinal, self.spec_shards()),
        ensures
            match r.0 {
                Found::Page(pin) => (self.good())(ordinal, pin) && self.looked_up(
                    ordinal,
                    Some(pin),
                ),
                Found::InFlight => self.missed(ordinal, r.1, true),
                Found::Nothing => self.missed(ordinal, r.1, false),
            },
    {
        proof {
            use_type_invariant(self);
        }
        let (mut inner, handle) = self.shards[i].acquire_write();
        let ghost (before, taken) = (inner, handle);
        let found = inner.find(ordinal, Ghost(self.rule().shard));
        let growth = inner.growth_for_one_more();
        let ghost after = inner;
        handle.release_write(inner);
        proof {
            assert(locked::traded(&self.shards@[i as int], before, after, taken));
            assert(self.passed(i as int, before, after));
        }
        (found, growth)
    }

    /// Puts the marker of a load in, unless the page or a marker is there by now or what
    /// was reserved no longer covers the entry. Hands the charge back where it does not go
    /// in, with what the entry takes.
    fn mark(&self, i: usize, ordinal: u64, alive: &Arc<AtomicBool>, charge: Charge) -> (r: (
        bool,
        u64,
    ))
        requires
            i < self.shards@.len(),
            charge.owner() == self.spec_budget(),
        ensures
            self.marked(i as int, ordinal, charge.spec_bytes(), r),
    {
        proof {
            use_type_invariant(self);
        }
        let (mut inner, handle) = self.shards[i].acquire_write();
        let ghost (before, taken) = (inner, handle);
        let needed = inner.growth_for_one_more();
        let covered = charge.bytes() >= needed;
        match inner.find(ordinal, Ghost(self.rule().shard)) {
            Found::Nothing => {
                if covered {
                    proof {
                        inner.lemma_wf(self.rule().shard);
                    }
                    let ghost mid = inner;
                    inner.promise(ordinal, Arc::clone(alive), charge, &self.budget);
                    let ghost after = inner;
                    handle.release_write(inner);
                    proof {
                        assert(locked::traded(&self.shards@[i as int], before, after, taken));
                        assert(self.passed(i as int, before, after));
                        assert(after.pages().dom() =~= before.pages().dom().insert(ordinal));
                        assert(after.pages().remove(ordinal) =~= mid.pages());
                    }
                    return (true, needed);
                }
            },
            _ => {},
        }
        let ghost after = inner;
        handle.release_write(inner);
        proof {
            assert(locked::traded(&self.shards@[i as int], before, after, taken));
            assert(self.passed(i as int, before, after));
        }
        (false, needed)
    }

    /// Takes out the marker of a load that went away without settling it.
    fn clear_gone(&self, i: usize, ordinal: u64)
        requires
            i < self.shards@.len(),
            i == shard_for(ordinal, self.spec_shards()),
        ensures
            self.tidied(ordinal),
    {
        proof {
            use_type_invariant(self);
        }
        let ghost rule = self.rule().shard;
        let (mut inner, handle) = self.shards[i].acquire_write();
        let ghost (before, taken) = (inner, handle);
        match inner.in_flight(ordinal) {
            Some(alive) => {
                if !still_up(&alive) {
                    proof {
                        before.lemma_wf(rule);
                    }
                    inner.withdraw(ordinal);
                }
            },
            None => {},
        }
        let ghost after = inner;
        handle.release_write(inner);
        proof {
            assert(locked::traded(&self.shards@[i as int], before, after, taken));
            assert(self.passed(i as int, before, after));
        }
    }

    /// Publishes what a load gave, or takes its marker out.
    fn settle_load(&self, i: usize, ordinal: u64, loaded: Result<(PagePin, u64), Error>) -> (r:
        Result<PagePin, Error>)
        requires
            i < self.shards@.len(),
            i == shard_for(ordinal, self.spec_shards()),
            loaded matches Ok((pin, _)) ==> (self.good())(ordinal, pin),
        ensures
            match loaded {
                Ok((pin, bytes)) => r == Ok::<PagePin, Error>(pin) && self.listed(
                    ordinal,
                    pin,
                    bytes,
                ),
                Err(e) => r == Err::<PagePin, Error>(e) && self.cleared(ordinal),
            },
    {
        proof {
            use_type_invariant(self);
        }
        let ghost rule = self.rule().shard;
        let (mut inner, handle) = self.shards[i].acquire_write();
        let ghost (before, taken) = (inner, handle);
        // Whatever happens now, this load makes no further push.
        inner.withdraw(ordinal);
        let ghost others = inner;
        proof {
            before.lemma_wf(rule);
            others.lemma_wf(rule);
        }
        match loaded {
            Ok((pin, bytes)) => {
                let ghost all = others.pages().insert(
                    ordinal,
                    Slot::Ready { pin, bytes, referenced: true },
                );
                inner.publish(ordinal, pin.clone(), bytes, Ghost(rule));
                let ghost published = inner;
                proof {
                    published.lemma_wf(rule);
                    others.lemma_publish(published.pages(), ordinal, pin, bytes);
                }
                let gone = inner.evict_down_to(self.capacity_per_shard, &self.budget, Ghost(rule));
                self.metrics.note_evictions(gone);
                // The page is loaded and charged whatever happens next; caching it is
                // the optional part. If the shard's table cannot be paid for, give up
                // the least useful pages, and then this one, rather than the budget.
                let mut paid = inner.settle(&self.budget, Ghost(rule)).is_ok();
                let ghost fitted = inner;
                proof {
                    shard::lemma_thinned_twice(all, published.pages(), inner.pages());
                }
                while !paid
                    invariant
                        inner.wf(rule),
                        inner.spec_resident() <= self.capacity_per_shard,
                        rule == self.rule().shard,
                        inner.promised() == others.promised(),
                        shard::thinned(all, inner.pages()),
                        inner.pages() == fitted.pages() || shard::unpaid(&self.budget),
                        paid || shard::unpaid(&self.budget),
                    decreases inner.pages().len(), (if paid {
                        0int
                    } else {
                        1int
                    }),
                {
                    let ghost mid = inner;
                    let one = inner.evict_one(&self.budget, Ghost(rule));
                    if one.is_some() {
                        proof {
                            shard::lemma_thinned(
                                all,
                                mid.pages(),
                                inner.pages(),
                                one->Some_0,
                            );
                        }
                        self.metrics.note_evictions(1);
                        paid = inner.settle(&self.budget, Ghost(rule)).is_ok();
                    } else {
                        proof {
                            inner.lemma_wf(rule);
                        }
                        inner.release_bookkeeping(&self.budget);
                        paid = true;
                    }
                }
                let ghost after = inner;
                handle.release_write(inner);
                proof {
                    assert(locked::traded(&self.shards@[i as int], before, after, taken));
                    assert(self.passed(i as int, before, after));
                }
                Ok(pin)
            },
            Err(e) => {
                inner.evict_down_to(self.capacity_per_shard, &self.budget, Ghost(rule));
                // The slot is gone, so give back the room the map grew to hold it.
                proof {
                    inner.lemma_wf(rule);
                }
                inner.release_bookkeeping(&self.budget);
                let ghost after = inner;
                handle.release_write(inner);
                proof {
                    assert(locked::traded(&self.shards@[i as int], before, after, taken));
                    assert(self.passed(i as int, before, after));
                }
                Err(e)
            },
        }
    }

    /// Whether a page is what a lookup of it came to: its shard listed it, or it did not and
    /// the page is what the load gave, which the shard then listed.
    pub open spec fn served<R: Fn(u64) -> Result<Charge, Error>, F: FnOnce() -> Result<
        (PagePin, u64),
        Error,
    >>(&self, ordinal: u64, reserve: R, load: F, pin: PagePin) -> bool {
        ||| self.looked_up(ordinal, Some(pin)) && self.spec_metrics().noted_hit()
        ||| self.started(ordinal, reserve) && self.spec_metrics().noted_miss() && exists|bytes: u64|
            #[trigger] load.ensures((), Ok::<(PagePin, u64), Error>((pin, bytes))) && self.listed(
                ordinal,
                pin,
                bytes,
            )
    }

    /// Whether an error is what a lookup of a page came to that its shard did not list: the
    /// load's own, with its marker gone, the reservation's, or that of a miss that gave up.
    pub open spec fn failure<R: Fn(u64) -> Result<Charge, Error>, F: FnOnce() -> Result<
        (PagePin, u64),
        Error,
    >>(&self, ordinal: u64, reserve: R, load: F, e: Error) -> bool {
        ||| load.ensures((), Err::<(PagePin, u64), Error>(e)) && self.started(ordinal, reserve)
            && self.spec_metrics().noted_miss() && self.cleared(ordinal)
        ||| exists|growth: u64|
            #[trigger] self.missed(ordinal, growth, false) && reserve.ensures(
                (PageCache::marker_cost(growth),),
                Err::<Charge, Error>(e),
            )
        ||| {
            &&& e.is_refusal()
            &&& e.budget_info() matches Some(info)
            &&& info.retryable
            &&& info.limit == self.spec_budget().spec_limit()
            &&& self.crowded_out(ordinal, info.requested)
        }
    }

    /// Returns the cached page, or runs `load`, once for concurrent callers.
    ///
    /// `reserve` is asked for the marker's memory and for whatever the shard's table and
    /// ring have to grow by to hold it, and only on the miss path. It comes from the
    /// caller because reclaiming has to be able to reach the page directory as well as
    /// this cache, and only the page store knows about both.
    pub fn get_or_load<R: Fn(u64) -> Result<Charge, Error>, F: FnOnce() -> Result<
        (PagePin, u64),
        Error,
    >>(&self, ordinal: u64, reserve: R, load: F) -> (r: Result<PagePin, Error>)
        requires
            forall|bytes: u64| #[trigger] reserve.requires((bytes,)),
            forall|bytes: u64, c: Charge|
                #[trigger] reserve.ensures((bytes,), Ok::<Charge, Error>(c)) ==> c.owner()
                    == self.spec_budget(),
            load.requires(()),
            forall|pin: PagePin, bytes: u64|
                #[trigger] load.ensures((), Ok::<(PagePin, u64), Error>((pin, bytes))) ==> (
                self.good())(ordinal, pin),
        ensures
            match r {
                Ok(pin) => (self.good())(ordinal, pin) && self.served(ordinal, reserve, load, pin),
                Err(e) => self.failure(ordinal, reserve, load, e),
            },
    {
        let i = self.shard_of(ordinal);
        // Bounds the retry below, which only runs when another thread grew this shard
        // between the reservation and the insert.
        let mut attempts: u32 = 0;
        let mut waits: u64 = u64::MAX;
        let mut marked = false;
        // Goes away when this call does, by whatever way: a load that unwinds must not leave
        // the others waiting for it.
        let mut _work: Option<InFlight> = None;
        let ghost mut tries: Seq<(u64, u64)> = Seq::empty();
        let ghost mut rounds: Seq<Round> = Seq::empty();
        while !marked
            invariant
                self.patient(ordinal, rounds),
                rounds.len() + waits == u64::MAX,
                i < self.shards@.len(),
                i == shard_for(ordinal, self.spec_shards()),
                self.outgrown(ordinal, tries),
                tries.len() == attempts,
                marked ==> self.started(ordinal, reserve),
                forall|bytes: u64| #[trigger] reserve.requires((bytes,)),
                forall|bytes: u64, c: Charge|
                    #[trigger] reserve.ensures((bytes,), Ok::<Charge, Error>(c)) ==> c.owner()
                        == self.spec_budget(),
                attempts <= RESERVE_ATTEMPTS,
                waits > 0,
            decreases waits, RESERVE_ATTEMPTS - attempts, (if marked {
                0int
            } else {
                1int
            }),
        {
            let (found, growth) = self.look(i, ordinal);
            match found {
                Found::Page(pin) => {
                    self.metrics.note_hit();
                    return Ok(pin);
                },
                Found::InFlight => {
                    self.metrics.note_wait();
                    self.clear_gone(i, ordinal);
                    waits -= 1;
                    proof {
                        rounds = rounds.push(Round { waited: true, reserved: 0, needed: growth });
                    }
                    if waits == 0 {
                        proof {
                            assert(self.patient(ordinal, rounds));
                            assert(self.crowded_out(ordinal, growth));
                        }
                        return Err(self.crowded(growth));
                    }
                },
                Found::Nothing => {
                    // What the table and the ring will cost if this entry makes them
                    // grow, asked for before the entry goes in. Reserving can evict,
                    // which takes shard locks, so it happens with this one released and
                    // the map is looked at again afterwards.
                    let want = LOADING_SLOT_BYTES.saturating_add(growth);
                    let charge = match reserve(want) {
                        Ok(charge) => charge,
                        Err(e) => {
                            proof {
                                assert(self.missed(ordinal, growth, false));
                                assert(want == PageCache::marker_cost(growth));
                            }
                            return Err(e);
                        },
                    };
                    // The shard may have grown under another thread while this one had
                    // the lock down, so what was reserved out there may no longer cover
                    // the entry. Checked before it goes in, because the table allocates
                    // as soon as it does: settling afterwards would be settling up for
                    // memory already taken.
                    proof {
                        assert(reserve.ensures((want,), Ok::<Charge, Error>(charge)));
                    }
                    let ghost given = charge;
                    let reserved = charge.bytes();
                    let flag = InFlight { alive: Arc::new(AtomicBool::new(true)) };
                    let (done, needed) = self.mark(i, ordinal, &flag.alive, charge);
                    if done {
                        _work = Some(flag);
                        proof {
                            assert(want == PageCache::marker_cost(growth));
                            assert(self.missed(ordinal, growth, false));
                            assert(self.marked(
                                shard_for(ordinal, self.spec_shards()),
                                ordinal,
                                given.spec_bytes(),
                                (true, needed),
                            ));
                        }
                        marked = true;
                    } else if reserved >= needed {
                        // The page, or a load of it, came in between: look again.
                        waits -= 1;
                        proof {
                            rounds = rounds.push(Round { waited: false, reserved, needed });
                        }
                        if waits == 0 {
                            proof {
                                assert(self.patient(ordinal, rounds));
                                assert(self.crowded_out(ordinal, needed));
                            }
                            return Err(self.crowded(needed));
                        }
                    } else {
                        proof {
                            tries = tries.push((given.spec_bytes(), needed));
                            assert(self.outgrown(ordinal, tries));
                        }
                        if attempts >= RESERVE_ATTEMPTS {
                            return Err(self.crowded(needed));
                        }
                        attempts += 1;
                    }
                },
            }
        }
        self.metrics.note_miss();
        let loaded = load();
        proof {
            if loaded is Ok {
                let (pin, bytes) = loaded->Ok_0;
                assert(load.ensures((), Ok::<(PagePin, u64), Error>((pin, bytes))));
            }
        }
        self.settle_load(i, ordinal, loaded)
    }

    /// The error of a miss that never got its marker in.
    fn crowded(&self, needed: u64) -> (r: Error)
        ensures
            r.is_refusal(),
            r.budget_info() matches Some(info) && info.retryable && info.requested == needed
                && info.limit == self.spec_budget().spec_limit(),
    {
        Error::budget(
            BudgetInfo {
                requested: needed,
                in_use: self.budget.in_use(),
                limit: self.budget.limit(),
                retryable: true,
            },
        )
    }

    /// Whether the turn was asked for and put on, and this is what it was.
    spec fn told(&self, turn: usize) -> bool {
        call_ensures(
            AtomicUsize::fetch_add,
            (&self.next_victim_shard, 1usize, Ordering::Relaxed),
            turn,
        )
    }

    /// Asks for the turn and puts it on.
    fn next_turn(&self) -> (r: usize)
        ensures
            self.told(r),
    {
        self.next_victim_shard.fetch_add(1, Ordering::Relaxed)
    }

    /// The shard to make room in first: each time the next one.
    fn first_victim(&self) -> (r: usize)
        ensures
            r < self.shards@.len(),
            exists|turn: usize| #[trigger] self.told(turn) && r == turn as int % self.shards@.len() as int,
    {
        proof {
            use_type_invariant(self);
        }
        let turn = self.next_turn();
        turn % self.shards.len()
    }

    /// Drops cached references until at least `target` bytes have been released, or no
    /// further progress is possible. Returns the number of bytes dropped.
    ///
    /// The bytes are only actually freed for pages no guard still holds. What the shards
    /// hold at that moment is other threads' doing.
    pub fn evict_bytes(&self, target: u64) -> (r: u64)
        ensures
            self.made_room(target, r),
    {
        proof {
            use_type_invariant(self);
        }
        let shard_count = self.shards.len();
        let start = self.first_victim();
        let mut released: u64 = 0;
        let mut idle_shards: usize = 0;
        let mut cursor: usize = start;
        let mut rounds: u64 = u64::MAX;
        let ghost mut steps: Seq<Step> = Seq::empty();
        while released < target && idle_shards < shard_count && rounds > 0
            invariant
                self.ruled(),
                shard_count == self.shards@.len(),
                cursor < shard_count,
                idle_shards <= shard_count,
                steps.len() + rounds == u64::MAX,
                self.walked(steps, target),
                PageCache::idle(steps, idle_shards as int),
                released == crate::budget::capped(gone_in(steps, steps.len()) as int),
                steps.len() > 0 ==> cursor == turn_after(
                    steps[steps.len() - 1].shard,
                    self.spec_shards(),
                ),
            decreases rounds,
        {
            rounds -= 1;
            let (mut inner, handle) = self.shards[cursor].acquire_write();
            let ghost (before, taken) = (inner, handle);
            let gone = inner.evict_one(&self.budget, Ghost(self.rule().shard));
            let ghost after = inner;
            handle.release_write(inner);
            if gone.is_some() {
                self.metrics.note_evictions(1);
            }
            proof {
                assert(locked::traded(&self.shards@[cursor as int], before, after, taken));
                assert(self.passed(cursor as int, before, after));
                let step = Step { shard: cursor as int, before, after, gone };
                assert(self.stepped(step));
                self.lemma_step(steps, step, target);
                steps = steps.push(step);
            }
            cursor = if cursor + 1 < shard_count {
                cursor + 1
            } else {
                0
            };
            match gone {
                Some(bytes) => {
                    released = released.saturating_add(bytes);
                    idle_shards = 0;
                },
                None => {
                    idle_shards += 1;
                },
            }
        }
        released
    }

    /// One more step.
    proof fn lemma_step(&self, steps: Seq<Step>, step: Step, target: u64)
        requires
            self.walked(steps, target),
            self.stepped(step),
            gone_in(steps, steps.len()) < target,
            steps.len() > 0 ==> step.shard == turn_after(
                steps[steps.len() - 1].shard,
                self.spec_shards(),
            ),
        ensures
            self.walked(steps.push(step), target),
            gone_in(steps.push(step), steps.len() + 1) == gone_in(steps, steps.len()) + match step.gone {
                Some(bytes) => bytes as nat,
                None => 0,
            },
    {
        let more = steps.push(step);
        assert forall|k: nat| k < more.len() implies #[trigger] gone_in(more, k) < target by {
            lemma_gone_in(steps, more, k);
        }
        lemma_gone_in(steps, more, steps.len());
    }

    /// What a shard's table and ring cost, and what is charged for them.
    pub fn shard_bookkeeping(&self, shard: usize) -> (r: (u64, u64))
        requires
            shard < self.spec_shards(),
        ensures
            self.accounted(shard as int, r),
    {
        proof {
            use_type_invariant(self);
        }
        let (inner, handle) = self.shards[shard].acquire_write();
        let ghost (seen, taken) = (inner, handle);
        let figures = (inner.footprint(), inner.charged_bytes());
        handle.release_write(inner);
        proof {
            assert(locked::traded(&self.shards@[shard as int], seen, seen, taken));
            assert(self.passed(shard as int, seen, seen));
        }
        figures
    }

    /// How many slots a shard lists, and how many its table has room for.
    pub fn shard_slots(&self, shard: usize) -> (r: (usize, usize))
        requires
            shard < self.spec_shards(),
        ensures
            self.measured(shard as int, r),
    {
        proof {
            use_type_invariant(self);
        }
        let (inner, handle) = self.shards[shard].acquire_write();
        let ghost (seen, taken) = (inner, handle);
        let figures = (inner.len(), inner.table_slots());
        handle.release_write(inner);
        proof {
            assert(locked::traded(&self.shards@[shard as int], seen, seen, taken));
            assert(self.passed(shard as int, seen, seen));
        }
        figures
    }
}

/// What the first shards hold does not depend on the others.
proof fn lemma_pages_of(a: Seq<ShardInner>, b: Seq<ShardInner>, n: nat)
    requires
        n <= a.len() <= b.len(),
        forall|i: int| 0 <= i < n ==> #[trigger] a[i] == b[i],
    ensures
        pages_of(a, n) == pages_of(b, n),
    decreases n,
{
    if n > 0 {
        lemma_pages_of(a, b, (n - 1) as nat);
        assert(a[n - 1] == b[n - 1]);
    }
}

/// The bytes of the first shards do not depend on the others.
proof fn lemma_bytes_of(a: Seq<ShardInner>, b: Seq<ShardInner>, n: nat)
    requires
        n <= a.len() <= b.len(),
        forall|i: int| 0 <= i < n ==> #[trigger] a[i] == b[i],
    ensures
        bytes_of(a, n) == bytes_of(b, n),
    decreases n,
{
    if n > 0 {
        lemma_bytes_of(a, b, (n - 1) as nat);
        assert(a[n - 1] == b[n - 1]);
    }
}

/// What went in the first steps does not depend on the others.
proof fn lemma_gone_in(a: Seq<Step>, b: Seq<Step>, n: nat)
    requires
        n <= a.len() <= b.len(),
        forall|i: int| 0 <= i < n ==> #[trigger] a[i] == b[i],
    ensures
        gone_in(a, n) == gone_in(b, n),
    decreases n,
{
    if n > 0 {
        lemma_gone_in(a, b, (n - 1) as nat);
        assert(a[n - 1] == b[n - 1]);
    }
}

} // verus!

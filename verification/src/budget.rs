//! The managed memory budget.
//!
//! Every allocation this crate makes on behalf of a query -- page buffers, decompression
//! scratch, page directory chunks -- is charged here before it is made, and the charge is
//! released when the allocation drops. A buffer that the cache evicted but a live guard
//! still holds keeps its charge, which is the point: the number is what this crate is
//! holding, not what the cache thinks it holds.
//!
//! What the budget does *not* cover is stated plainly so the number is not mistaken for a
//! cap on resident memory: the allocator's own overhead, values the caller copied out, the
//! operating system's page cache, pages made resident by a mapped file, and the file
//! itself when it is an in-memory image.

use std::sync::atomic::{AtomicU64, Ordering};
use std::sync::Arc;

use vstd::prelude::*;
use vstd::rwlock::{RwLock, RwLockPredicate};

use crate::error::{BudgetInfo, Error, ErrorKind};
use crate::locked;

verus! {

/// Bytes charged on top of each buffer's capacity for its bookkeeping.
///
/// Covers the control block of a shared buffer, the buffer struct, and the room a
/// structure needs while it is being rehashed or regrown, when the old allocation and the
/// new one are both live. It is an estimate, not a measurement of allocator behaviour.
pub const BUFFER_OVERHEAD: u64 = 192;

/// The group of buckets a hash table scans at a time. It keeps one spare group past the
/// end so a scan that wraps around still reads whole groups, and aligns the allocation
/// to it.
pub const HASH_GROUP: u64 = 16;

/// The smallest of `from`, twice `from`, and so on that is at least `n`.
pub open spec fn doubled_to(from: nat, n: nat) -> nat
    decreases (if from < n {
        n - from
    } else {
        0
    }),
{
    if from >= n || from == 0 {
        from
    } else {
        doubled_to(2 * from, n)
    }
}

/// How many buckets the smallest hash table that holds `entries` has.
///
/// A table keeps a power of two buckets, four at least, and leaves an eighth of them free
/// so that looking a missing key up still ends.
pub open spec fn buckets(entries: nat) -> nat {
    doubled_to(4, (8 * entries + 6) / 7)
}

/// What the smallest hash table that holds `entries` of `entry` bytes has allocated: one
/// entry and one control byte for each bucket, a spare group, rounded up to whole groups.
pub open spec fn table_bytes(entries: nat, entry: nat) -> int {
    if entries == 0 {
        0
    } else {
        let raw = buckets(entries) * (entry + 1) + HASH_GROUP;
        ((raw + HASH_GROUP - 1) / HASH_GROUP as int) * HASH_GROUP
    }
}

/// A number, or the largest one where it does not fit.
pub open spec fn capped(n: int) -> u64 {
    if n > u64::MAX {
        u64::MAX
    } else {
        n as u64
    }
}

proof fn lemma_doubled(from: nat, n: nat)
    requires
        from > 0,
    ensures
        doubled_to(from, n) >= n,
        doubled_to(from, n) >= from,
        doubled_to(from, n) == from || doubled_to(from, n) < 2 * n,
    decreases (if from < n {
        n - from
    } else {
        0
    }),
{
    if from < n {
        lemma_doubled(2 * from, n);
    }
}

/// A table holds its entries with an eighth of its buckets free, and has at most twice the
/// buckets that takes, or four.
pub proof fn lemma_buckets(entries: nat)
    ensures
        8 * entries <= 7 * buckets(entries),
        buckets(entries) >= 4,
        buckets(entries) == 4 || 7 * buckets(entries) < 16 * entries + 14,
{
    lemma_doubled(4, (8 * entries + 6) / 7);
}

/// What the smallest hash table that holds `entries` of `entry` bytes has allocated.
///
/// An upper bound, so a charge computed from it is never short.
pub fn hash_table_bytes(entries: usize, entry: usize) -> (r: u64)
    ensures
        r == capped(table_bytes(entries as nat, entry as nat)),
{
    if entries == 0 {
        return 0;
    }
    let want: u128 = (8 * (entries as u128) + 6) / 7;
    let mut n: u128 = 4;
    while n < want
        invariant
            4 <= n,
            want <= 0x2_4924_9249_2492_4924,
            n < 2 * want || n == 4,
            doubled_to(n as nat, want as nat) == doubled_to(4, want as nat),
        decreases (if n < want {
            want - n
        } else {
            0
        }),
    {
        n = 2 * n;
    }
    proof {
        assert(n == buckets(entries as nat));
    }
    if n > u64::MAX as u128 {
        proof {
            let b = buckets(entries as nat);
            assert(b * (entry as nat + 1) >= b) by (nonlinear_arith)
                requires
                    b >= 0,
            ;
        }
        return u64::MAX;
    }
    proof {
        let e = entry as int + 1;
        assert(0 <= n * e <= 0xFFFF_FFFF_FFFF_FFFF * 0x1_0000_0000_0000_0000) by (nonlinear_arith)
            requires
                0 <= n <= 0xFFFF_FFFF_FFFF_FFFF,
                0 <= e <= 0x1_0000_0000_0000_0000,
        ;
    }
    let raw: u128 = n * (entry as u128 + 1) + HASH_GROUP as u128;
    let whole: u128 = ((raw + (HASH_GROUP as u128 - 1)) / HASH_GROUP as u128) * HASH_GROUP as u128;
    if whole > u64::MAX as u128 {
        u64::MAX
    } else {
        whole as u64
    }
}

/// What a hash table needs at its peak to take one more entry.
///
/// A table with no slot left to hand out rehashes: in place, or into one twice the size,
/// and then both are there while the entries move.
pub open spec fn table_peak_bytes(slots: nat, capacity: nat, len: nat, entry: nat) -> int {
    let now = capped(table_bytes(slots, entry)) as int;
    if capacity > len {
        now
    } else if slots == 0 {
        now + capped(table_bytes(1, entry))
    } else if 2 * slots <= usize::MAX {
        now + capped(table_bytes(2 * slots, entry))
    } else {
        now + capped(table_bytes(usize::MAX as nat, entry))
    }
}

/// What a hash table needs at its peak to take one more entry.
///
/// `slots` is what the table has room for at the bucket count it has now, `capacity`
/// what it says it will still take before it rehashes, and `len` how many it holds. The
/// two are not the same once entries have been removed: a removal leaves a slot the
/// table will not hand out again until it rehashes, so `capacity` falls while the
/// buckets stay. Only `capacity` says whether the next entry rehashes; only `slots` says
/// what the table costs.
///
/// Rehashing means allocating the new table, moving the entries across and only then
/// letting the old one go, so both are live at once. A reservation for the difference
/// alone is short by the old table for as long as the move takes.
pub fn hash_table_peak_bytes(slots: usize, capacity: usize, len: usize, entry: usize) -> (r: u64)
    ensures
        r == capped(table_peak_bytes(slots as nat, capacity as nat, len as nat, entry as nat)),
{
    let now = hash_table_bytes(slots, entry);
    if capacity > len {
        return now;
    }
    // It may rehash in place, keeping the buckets it has, or into a table twice the
    // size. Reserve for the larger of the two.
    let next = if slots == 0 {
        hash_table_bytes(1, entry)
    } else {
        hash_table_bytes(slots.saturating_add(slots), entry)
    };
    now.saturating_add(next)
}

/// What a budget has handed out.
pub struct Ledger {
    pub used: u64,
    pub peak: u64,
}

impl Ledger {
    /// Whether no more than the limit is handed out, and ever was.
    pub open spec fn within(self, limit: u64) -> bool {
        self.used <= self.peak <= limit
    }

    /// What is handed out once `bytes` have been given back.
    pub open spec fn less(self, bytes: u64) -> Ledger {
        Ledger {
            used: (if bytes <= self.used {
                self.used - bytes
            } else {
                0
            }) as u64,
            peak: self.peak,
        }
    }

    /// What is handed out once `bytes` more are.
    pub open spec fn more(self, bytes: u64) -> Ledger {
        Ledger {
            used: (self.used + bytes) as u64,
            peak: (if self.used + bytes > self.peak {
                self.used + bytes
            } else {
                self.peak as int
            }) as u64,
        }
    }

    /// What is handed out and then given back leaves as much handed out as before, and as
    /// much room.
    pub proof fn lemma_given_back(self, limit: u64, bytes: u64)
        requires
            self.within(limit),
            self.used + bytes <= limit,
        ensures
            self.more(bytes).within(limit),
            self.more(bytes).used == self.used + bytes,
            self.more(bytes).less(bytes).used == self.used,
            self.more(bytes).less(bytes).within(limit),
    {
    }

    /// Adds `bytes` to what is handed out, or says why that does not fit.
    ///
    /// The error says whether the request could ever fit: a request larger than the
    /// whole budget is not retryable, one that merely does not fit right now is.
    pub fn take(&mut self, limit: u64, bytes: u64) -> (r: Result<(), Error>)
        requires
            old(self).within(limit),
        ensures
            final(self).within(limit),
            match r {
                Ok(_) => {
                    &&& old(self).used + bytes <= limit
                    &&& final(self).used == old(self).used + bytes
                    &&& final(self).peak == (if final(self).used > old(self).peak {
                        final(self).used
                    } else {
                        old(self).peak
                    })
                },
                Err(e) => {
                    &&& old(self).used + bytes > limit
                    &&& *final(self) == *old(self)
                    &&& e.is_refusal()
                    &&& e.budget_info() == Some(
                        BudgetInfo {
                            requested: bytes,
                            in_use: old(self).used,
                            limit,
                            retryable: bytes <= limit,
                        },
                    )
                },
            },
    {
        if bytes > limit - self.used {
            return Err(
                Error::budget(
                    BudgetInfo {
                        requested: bytes,
                        in_use: self.used,
                        limit,
                        retryable: bytes <= limit,
                    },
                ),
            );
        }
        self.used = self.used + bytes;
        if self.used > self.peak {
            self.peak = self.used;
        }
        Ok(())
    }

    /// Takes `bytes` off what is handed out.
    pub fn give_back(&mut self, limit: u64, bytes: u64)
        requires
            old(self).within(limit),
        ensures
            final(self).within(limit),
            final(self).peak == old(self).peak,
            bytes <= old(self).used ==> final(self).used == old(self).used - bytes,
            bytes > old(self).used ==> final(self).used == 0,
    {
        self.used = if bytes <= self.used {
            self.used - bytes
        } else {
            0
        };
    }
}

/// What is always true of a budget's ledger.
pub struct LedgerRule {
    pub limit: u64,
}

impl RwLockPredicate<Ledger> for LedgerRule {
    open spec fn inv(self, v: Ledger) -> bool {
        v.within(self.limit)
    }
}

/// A shared byte budget.
///
/// Reservations are taken with the ledger locked. A charge that drops only leaves word of
/// its bytes, which whoever looks at the ledger next takes off it first.
pub struct Budget {
    limit: u64,
    ledger: RwLock<Ledger, LedgerRule>,
    returned: AtomicU64,
}

/// Leaves word of bytes given back: `AtomicU64::fetch_add`, which neither panics nor
/// unwinds. Nothing is claimed of the counter, which other threads change at any time.
#[verifier::external_body]
fn leave_word(counter: &AtomicU64, bytes: u64)
    opens_invariants none
    no_unwind
{
    counter.fetch_add(bytes, Ordering::AcqRel);
}

impl Budget {
    /// The limit.
    pub closed spec fn spec_limit(&self) -> u64 {
        self.limit
    }

    #[verifier::type_invariant]
    spec fn ruled(&self) -> bool {
        self.ledger.pred() == (LedgerRule { limit: self.limit })
    }

    /// Whether the ledger was `a` when it was taken, and was put back as `b`.
    pub closed spec fn passed(&self, a: Ledger, b: Ledger) -> bool {
        locked::passed(&self.ledger, a, b)
    }

    /// Whether the bytes given back since last time were asked for, and this is what they
    /// were.
    pub closed spec fn returned(&self, bytes: u64) -> bool {
        call_ensures(AtomicU64::swap, (&self.returned, 0u64, Ordering::AcqRel), bytes)
    }

    /// Whether word was left that `bytes` came back, for whoever looks at the ledger next.
    pub closed spec fn given_back(&self, bytes: u64) -> bool {
        call_ensures(leave_word, (&self.returned, bytes), ())
    }

    /// Whether the budget starts with nothing handed out, now or ever, and no word left.
    pub closed spec fn fresh(&self) -> bool {
        &&& call_ensures(
            RwLock::<Ledger, LedgerRule>::new,
            (Ledger { used: 0, peak: 0 }, Ghost(LedgerRule { limit: self.limit })),
            self.ledger,
        )
        &&& call_ensures(AtomicU64::new, (0u64,), self.returned)
    }

    /// Whether this is what the ledger said once everything given back was taken off it.
    pub open spec fn stood_at(&self, l: Ledger) -> bool {
        exists|a: Ledger, bytes: u64|
            #[trigger] self.passed(a, l) && #[trigger] self.returned(bytes) && l == a.less(bytes)
    }

    /// Whether the ledger was asked for `bytes`: it said yes exactly when they fit beside what
    /// was handed out, and then it has them; otherwise it stays as it was, and the error says
    /// what was handed out.
    pub open spec fn asked(&self, bytes: u64, r: Result<(), Error>) -> bool {
        exists|a: Ledger, b: Ledger, back: u64|
            #[trigger] self.passed(a, b) && #[trigger] self.returned(back) && {
                let l = a.less(back);
                match r {
                    Ok(_) => l.used + bytes <= self.spec_limit() && b == l.more(bytes),
                    Err(e) => {
                        &&& l.used <= self.spec_limit() < l.used + bytes
                        &&& b == l
                        &&& e.is_refusal()
                        &&& e.budget_info() == Some(
                            BudgetInfo {
                                requested: bytes,
                                in_use: l.used,
                                limit: self.spec_limit(),
                                retryable: bytes <= self.spec_limit(),
                            },
                        )
                    },
                }
            }
    }

    /// A refusal is the same refusal whatever it is about.
    pub proof fn lemma_asked(&self, bytes: u64, e: Error, about: Error)
        requires
            self.asked(bytes, Err::<(), Error>(e)),
            about.kind() == e.kind(),
            about.budget_info() == e.budget_info(),
        ensures
            self.asked(bytes, Err::<(), Error>(about)),
    {
        let (a, b, back) = choose|a: Ledger, b: Ledger, back: u64|
            #[trigger] self.passed(a, b) && #[trigger] self.returned(back) && {
                let l = a.less(back);
                &&& l.used <= self.spec_limit() < l.used + bytes
                &&& b == l
                &&& e.is_refusal()
                &&& e.budget_info() == Some(
                    BudgetInfo {
                        requested: bytes,
                        in_use: l.used,
                        limit: self.spec_limit(),
                        retryable: bytes <= self.spec_limit(),
                    },
                )
            };
        assert(self.passed(a, b) && self.returned(back));
    }

    /// Whether the ledger was asked for `bytes` and did not have them.
    pub open spec fn refused(&self, bytes: u64) -> bool {
        exists|e: Error| #[trigger] self.asked(bytes, Err::<(), Error>(e))
    }

    /// Creates a budget of `limit` bytes.
    pub fn new(limit: u64) -> (r: Arc<Budget>)
        ensures
            r.spec_limit() == limit,
            r.fresh(),
    {
        let ledger = RwLock::new(Ledger { used: 0, peak: 0 }, Ghost(LedgerRule { limit }));
        Arc::new(Budget { limit, ledger, returned: AtomicU64::new(0) })
    }

    /// The configured limit.
    pub fn limit(&self) -> (r: u64)
        ensures
            r == self.spec_limit(),
    {
        self.limit
    }

    /// What the ledger says once everything given back has been taken off it.
    fn settled(&self) -> (r: Ledger)
        ensures
            r.within(self.spec_limit()),
            self.stood_at(r),
    {
        proof {
            use_type_invariant(self);
        }
        let (mut ledger, handle) = self.ledger.acquire_write();
        let ghost (before, taken) = (ledger, handle);
        let back = self.returned.swap(0, Ordering::AcqRel);
        ledger.give_back(self.limit, back);
        let copy = Ledger { used: ledger.used, peak: ledger.peak };
        let ghost after = ledger;
        handle.release_write(ledger);
        proof {
            assert(locked::traded(&self.ledger, before, after, taken));
            assert(self.passed(before, after));
            assert(self.returned(back));
        }
        copy
    }

    /// Bytes currently charged.
    pub fn in_use(&self) -> (r: u64)
        ensures
            r <= self.spec_limit(),
            exists|l: Ledger| #[trigger] self.stood_at(l) && r == l.used,
    {
        self.settled().used
    }

    /// Highest number of bytes ever charged at once.
    pub fn peak(&self) -> (r: u64)
        ensures
            r <= self.spec_limit(),
            exists|l: Ledger| #[trigger] self.stood_at(l) && r == l.peak,
    {
        self.settled().peak
    }

    /// Adds `bytes` to the accounting, or reports the failure.
    fn take(&self, bytes: u64) -> (r: Result<(), Error>)
        ensures
            match r {
                Ok(_) => bytes <= self.spec_limit(),
                Err(e) => refusal(e, bytes, self.spec_limit()) && bytes > 0,
            },
            self.asked(bytes, r),
    {
        proof {
            use_type_invariant(self);
        }
        let (mut ledger, handle) = self.ledger.acquire_write();
        let ghost (before, key) = (ledger, handle);
        let back = self.returned.swap(0, Ordering::AcqRel);
        ledger.give_back(self.limit, back);
        let taken = ledger.take(self.limit, bytes);
        let ghost after = ledger;
        handle.release_write(ledger);
        proof {
            assert(locked::traded(&self.ledger, before, after, key));
            assert(self.passed(before, after));
            assert(self.returned(back));
        }
        taken
    }

    /// Reserves `bytes`, or reports [`ErrorKind::BudgetExceeded`].
    ///
    /// The error says whether the request could ever fit: a request larger than the
    /// whole budget is not retryable, one that merely does not fit right now is. What else
    /// is charged at that moment is other threads' doing.
    pub fn try_reserve(self: &Arc<Self>, bytes: u64) -> (r: Result<Charge, Error>)
        ensures
            match r {
                Ok(c) => c.spec_bytes() == bytes && c.owner() == *self && bytes
                    <= self.spec_limit() && self.asked(bytes, Ok::<(), Error>(())),
                Err(e) => refusal(e, bytes, self.spec_limit()) && bytes > 0 && self.asked(
                    bytes,
                    Err::<(), Error>(e),
                ),
            },
    {
        match self.take(bytes) {
            Ok(_) => Ok(Charge { budget: Arc::clone(self), bytes }),
            Err(e) => Err(e),
        }
    }
}

/// Whether an error says that a request does not fit a budget of this limit.
pub open spec fn refusal(e: Error, bytes: u64, limit: u64) -> bool {
    &&& e.is_refusal()
    &&& e.budget_info() matches Some(info)
    &&& info.requested == bytes
    &&& info.limit == limit
    &&& info.in_use <= limit
    &&& info.in_use + bytes > limit
    &&& info.retryable == (bytes <= limit)
}

/// A live reservation. Releases its bytes on drop.
pub struct Charge {
    budget: Arc<Budget>,
    bytes: u64,
}

impl Charge {
    /// Bytes this charge holds.
    pub closed spec fn spec_bytes(&self) -> u64 {
        self.bytes
    }

    /// The budget the charge is on.
    pub closed spec fn owner(&self) -> Arc<Budget> {
        self.budget
    }

    /// Bytes this charge holds.
    pub fn bytes(&self) -> (r: u64)
        ensures
            r == self.spec_bytes(),
    {
        self.bytes
    }

    /// Folds another charge on the same budget into this one.
    ///
    /// For building one reservation out of several steps, where a step had to reclaim
    /// memory to succeed and so could not be a plain [`Charge::grow`]. A budget never hands
    /// out more than a number can hold, so the sum is one.
    pub fn absorb(&mut self, other: Charge)
        requires
            old(self).owner() == other.owner(),
        ensures
            final(self).spec_bytes() == capped(old(self).spec_bytes() + other.spec_bytes()),
            final(self).owner() == old(self).owner(),
    {
        let bytes = other.take_bytes();
        self.bytes = self.bytes.saturating_add(bytes);
    }

    /// Hands over the bytes without releasing them.
    ///
    /// The charge is dropped as usual, which releases nothing and lets go of its
    /// reference to the budget; forgetting it instead would keep the budget alive for as
    /// long as the charge that absorbed it.
    fn take_bytes(self) -> (r: u64)
        ensures
            r == self.spec_bytes(),
    {
        let mut this = self;
        let bytes = this.bytes;
        this.bytes = 0;
        bytes
    }

    /// Reserves `bytes` more on the same budget, keeping one charge.
    ///
    /// For a structure that is built up piece by piece and has to stay inside the budget
    /// while it is being built, not only once it is finished. Nothing is added to the
    /// charge when the reservation fails.
    pub fn grow(&mut self, bytes: u64) -> (r: Result<(), Error>)
        ensures
            final(self).owner() == old(self).owner(),
            match r {
                Ok(_) => final(self).spec_bytes() == capped(old(self).spec_bytes() + bytes),
                Err(e) => final(self).spec_bytes() == old(self).spec_bytes() && bytes > 0
                    && refusal(e, bytes, old(self).owner().spec_limit()),
            },
            old(self).owner().asked(bytes, r),
    {
        match self.budget.take(bytes) {
            Ok(_) => {
                self.bytes = self.bytes.saturating_add(bytes);
                Ok(())
            },
            Err(e) => Err(e),
        }
    }

    /// Gives `bytes` of this charge back, keeping the rest.
    ///
    /// For a structure that shrinks in place: the part that is gone should not stay
    /// charged until the whole reservation drops. Giving back more than is held gives
    /// back all of it.
    pub fn shrink(&mut self, bytes: u64)
        ensures
            final(self).owner() == old(self).owner(),
            final(self).spec_bytes() == (if bytes < old(self).spec_bytes() {
                old(self).spec_bytes() - bytes
            } else {
                0
            }),
            old(self).owner().given_back(
                (old(self).spec_bytes() - final(self).spec_bytes()) as u64,
            ),
    {
        let bytes = if bytes < self.bytes {
            bytes
        } else {
            self.bytes
        };
        leave_word(&self.budget.returned, bytes);
        self.bytes = self.bytes - bytes;
    }
}

impl Drop for Charge {
    fn drop(&mut self)
        ensures
            old(self).owner().given_back(old(self).spec_bytes()),
            final(self).owner() == old(self).owner(),
        opens_invariants none
        no_unwind
    {
        leave_word(&self.budget.returned, self.bytes);
    }
}

/// A value and the reservation that paid for the memory it holds.
///
/// A collection handed back to a caller has to keep its reservation for as long as the
/// memory is there, and keeping it in the elements is not enough: emptying a list drops
/// the elements and keeps the allocation, so the budget would get its bytes back while
/// the list still held them. Pairing the two means the reservation goes when the value
/// does.
pub struct Charged<T> {
    value: T,
    charge: Charge,
}

impl<T> Charged<T> {
    /// The value.
    pub closed spec fn spec_value(&self) -> T {
        self.value
    }

    /// What the reservation holds.
    pub closed spec fn spec_charged(&self) -> u64 {
        self.charge.bytes
    }

    /// The budget the reservation is on.
    pub closed spec fn owner(&self) -> Arc<Budget> {
        self.charge.budget
    }

    /// Pairs a value with the reservation that covers it.
    pub fn new(value: T, charge: Charge) -> (r: Charged<T>)
        ensures
            r.spec_value() == value,
            r.spec_charged() == charge.spec_bytes(),
            r.owner() == charge.owner(),
    {
        Charged { value, charge }
    }

    /// The value.
    pub fn get(&self) -> (r: &T)
        ensures
            *r == self.spec_value(),
    {
        &self.value
    }

    /// What the reservation holds.
    pub fn charged_bytes(&self) -> (r: u64)
        ensures
            r == self.spec_charged(),
    {
        self.charge.bytes()
    }

    /// The value and its reservation, to be kept together or released in that order.
    pub fn into_inner(self) -> (r: (T, Charge))
        ensures
            r.0 == self.spec_value(),
            r.1.spec_bytes() == self.spec_charged(),
            r.1.owner() == self.owner(),
    {
        (self.value, self.charge)
    }
}

/// Something that can set aside memory on a database's budget.
///
/// Implemented by databases and tables, which reclaim cached pages to make room, and by a
/// bare [`Budget`], which has nothing to reclaim from. An adapter that allocates on a
/// caller's behalf takes one of these rather than a budget, so that asking for memory
/// behaves the way it does inside the database: a reservation that refuses to reclaim
/// fails while the cache is holding exactly the room it needed.
pub trait Reserve: Send + Sync {
    /// Sets `bytes` aside, reclaiming if it can and has to.
    fn reserve(&self, bytes: u64) -> (r: Result<Charge, Error>)
        ensures
            match r {
                Ok(c) => c.spec_bytes() == bytes,
                Err(e) => e.is_refusal(),
            },
    ;
}

impl Reserve for Arc<Budget> {
    fn reserve(&self, bytes: u64) -> (r: Result<Charge, Error>)
        ensures
            match r {
                Ok(c) => c.owner() == *self && self.asked(bytes, Ok::<(), Error>(())),
                Err(e) => self.asked(bytes, Err::<(), Error>(e)),
            },
    {
        // A budget on its own holds nothing it could give back.
        self.try_reserve(bytes)
    }
}

/// A charge kept in step with what a structure has allocated.
///
/// For the tables this crate keeps for its own bookkeeping, which hold their slots after
/// their entries are gone. Charging per entry leaves that memory accounted to nobody;
/// charging what the table has allocated does not.
pub struct Bookkeeping {
    charge: Option<Charge>,
}

impl Bookkeeping {
    /// Bytes currently charged.
    pub closed spec fn spec_bytes(&self) -> u64 {
        match self.charge {
            Some(c) => c.spec_bytes(),
            None => 0,
        }
    }

    /// Whether what is charged is charged on this budget.
    pub closed spec fn on(&self, budget: Arc<Budget>) -> bool {
        self.charge matches Some(c) ==> c.owner() == budget
    }

    /// Nothing charged.
    pub fn new() -> (r: Bookkeeping)
        ensures
            r.spec_bytes() == 0,
            forall|b: Arc<Budget>| #[trigger] r.on(b),
    {
        Bookkeeping { charge: None }
    }

    /// Bytes currently charged.
    pub fn bytes(&self) -> (r: u64)
        ensures
            r == self.spec_bytes(),
    {
        match &self.charge {
            Some(c) => c.bytes(),
            None => 0,
        }
    }

    /// Folds a charge taken elsewhere into this one.
    pub fn absorb(&mut self, charge: Charge)
        requires
            old(self).on(charge.owner()),
        ensures
            final(self).spec_bytes() == capped(old(self).spec_bytes() + charge.spec_bytes()),
            final(self).on(charge.owner()),
    {
        match self.charge.take() {
            Some(held) => {
                let mut held = held;
                held.absorb(charge);
                self.charge = Some(held);
            },
            None => {
                self.charge = Some(charge);
            },
        }
    }

    /// Brings the charge to `want`. Growing can fail; shrinking cannot.
    pub fn settle(&mut self, want: u64, budget: &Arc<Budget>) -> (r: Result<(), Error>)
        requires
            old(self).on(*budget),
        ensures
            final(self).on(*budget),
            match r {
                Ok(_) => {
                    &&& final(self).spec_bytes() == want
                    &&& want > old(self).spec_bytes() ==> budget.asked(
                        (want - old(self).spec_bytes()) as u64,
                        Ok::<(), Error>(()),
                    )
                    &&& want < old(self).spec_bytes() ==> budget.given_back(
                        (old(self).spec_bytes() - want) as u64,
                    )
                },
                Err(e) => {
                    &&& final(self).spec_bytes() == old(self).spec_bytes()
                    &&& want > old(self).spec_bytes()
                    &&& budget.asked(
                        (want - old(self).spec_bytes()) as u64,
                        Err::<(), Error>(e),
                    )
                },
            },
    {
        let have = self.bytes();
        if want > have {
            match self.charge.take() {
                Some(held) => {
                    let mut held = held;
                    let grown = held.grow(want - have);
                    self.charge = Some(held);
                    grown
                },
                None => match budget.try_reserve(want) {
                    Ok(charge) => {
                        self.charge = Some(charge);
                        Ok(())
                    },
                    Err(e) => Err(e),
                },
            }
        } else if want < have {
            match self.charge.take() {
                Some(held) => {
                    let mut held = held;
                    held.shrink(have - want);
                    if want > 0 {
                        self.charge = Some(held);
                    }
                },
                None => {},
            }
            Ok(())
        } else {
            Ok(())
        }
    }
}

/// Lets go of a value here rather than at the end of the block it is in.
pub(crate) fn let_go<T>(value: T) {
}

/// A number that a counter can hold is itself, and a larger one is the largest.
pub proof fn lemma_capped(n: int)
    ensures
        0 <= n <= u64::MAX ==> capped(n) == n,
        n > u64::MAX ==> capped(n) == u64::MAX,
{
}

/// Doubling gives the number doubled, or twice what came before it.
proof fn lemma_doubled_smallest(from: nat, n: nat)
    requires
        from > 0,
    ensures
        doubled_to(from, n) >= n || doubled_to(from, n) == from,
        doubled_to(from, n) == from || doubled_to(from, n) < 2 * n,
        exists|k: nat| #[trigger] vstd::arithmetic::power2::pow2(k) * from == doubled_to(from, n),
    decreases (if from < n {
        n - from
    } else {
        0
    }),
{
    lemma_doubled(from, n);
    if from >= n {
        vstd::arithmetic::power2::lemma2_to64();
        assert(vstd::arithmetic::power2::pow2(0) * from == from);
    } else {
        lemma_doubled_smallest(2 * from, n);
        let k = choose|k: nat|
            #[trigger] vstd::arithmetic::power2::pow2(k) * (2 * from) == doubled_to(2 * from, n);
        vstd::arithmetic::power2::lemma_pow2_unfold(k + 1);
        assert(vstd::arithmetic::power2::pow2(k + 1) * from == vstd::arithmetic::power2::pow2(k) * (2
            * from)) by (nonlinear_arith)
            requires
                vstd::arithmetic::power2::pow2(k + 1) == 2 * vstd::arithmetic::power2::pow2(k),
        ;
    }
}

/// A hash table has a power of two of buckets, four at least, an eighth of them spare, and half of
/// them would be too few. What it has allocated is an entry and a byte for each, and sixteen
/// bytes, in whole lots of sixteen.
pub proof fn lemma_table_bytes(entries: nat, entry: nat)
    ensures
        entries == 0 ==> table_bytes(entries, entry) == 0,
        entries > 0 ==> {
            let b = buckets(entries);
            let raw = b * (entry + 1) + 16;
            &&& 8 * entries <= 7 * b
            &&& b == 4 || 7 * b < 16 * entries + 14
            &&& exists|k: nat| #[trigger] vstd::arithmetic::power2::pow2(k) * 4 == b
            &&& raw <= table_bytes(entries, entry) < raw + 16
            &&& table_bytes(entries, entry) % 16 == 0
        },
{
    lemma_buckets(entries);
    lemma_doubled_smallest(4, (8 * entries + 6) / 7);
}

/// Taking one more entry into a full table takes a second table beside it, twice as large, or the
/// first one where there was none. A table with room takes nothing more.
pub proof fn lemma_table_peak(slots: nat, capacity: nat, len: nat, entry: nat)
    requires
        2 * slots <= usize::MAX,
    ensures
        capacity > len ==> table_peak_bytes(slots, capacity, len, entry) == capped(
            table_bytes(slots, entry),
        ),
        capacity <= len && slots > 0 ==> table_peak_bytes(slots, capacity, len, entry) == capped(
            table_bytes(slots, entry),
        ) + capped(table_bytes(2 * slots, entry)),
        capacity <= len && slots == 0 ==> table_peak_bytes(slots, capacity, len, entry) == capped(
            table_bytes(1, entry),
        ),
{
}

impl Ledger {
    /// What is handed out goes up by what is taken and down by what comes back, and the most that
    /// ever was only goes up.
    pub proof fn lemma_moves(self, limit: u64, bytes: u64)
        requires
            self.within(limit),
        ensures
            self.used + bytes <= limit ==> self.more(bytes).used - self.used == bytes,
            self.used + bytes <= limit ==> self.more(bytes).peak >= self.peak && self.more(
                bytes,
            ).peak >= self.used + bytes && (self.more(bytes).peak == self.peak || self.more(
                bytes,
            ).peak == self.used + bytes),
            bytes <= self.used ==> self.used - self.less(bytes).used == bytes,
            self.less(bytes).peak == self.peak,
    {
    }
}

impl Budget {
    /// A request that is granted fits the limit beside what was handed out. One that is refused
    /// does not, and the refusal says what was asked for, what was handed out and what the limit
    /// is, and that it may be tried again where it could ever fit.
    pub proof fn lemma_answered(&self, bytes: u64, r: Result<(), Error>)
        requires
            self.asked(bytes, r),
        ensures
            r is Ok ==> bytes <= self.spec_limit(),
            r matches Err(e) ==> e.kind() == ErrorKind::BudgetExceeded && (
            e.budget_info() matches Some(info) && info.requested == bytes && info.limit
                == self.spec_limit() && info.in_use + bytes > info.limit && info.in_use
                <= info.limit && (info.retryable <==> bytes <= info.limit)),
    {
    }
}

} // verus!

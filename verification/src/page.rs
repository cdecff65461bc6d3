//! Page buffers and the guards that keep them alive.
//!
//! The cache owns immutable [`PageBuffer`]s. A [`PagePin`] is a counted reference to
//! one; a [`ValueGuard`] is a pin plus a validated byte range. Borrowing the bytes
//! borrows the guard, so a slice can never outlive the buffer, and eviction or dropping
//! the database cannot invalidate a slice that is still reachable.

use std::ops::Range;
use std::sync::atomic::{AtomicU64, Ordering};
use std::sync::Arc;

use vstd::prelude::*;
use vstd::slice::*;

use crate::budget::{self, Budget, Charge, BUFFER_OVERHEAD};
use crate::error::{Error, Words};
use crate::format::node::{self, PageView};
use crate::format::PageOrdinal;

verus! {

/// An immutable page, owned by the cache and shared through [`PagePin`].
pub struct PageBuffer {
    ordinal: PageOrdinal,
    data: Vec<u8>,
    /// Which tree has already checked this page's digests against its keys, or zero.
    ///
    /// Lives with the buffer, so it is cleared whenever the page is evicted and read
    /// again, and it is keyed by tree because two trees read the same bytes with
    /// different key encodings.
    validated_for: AtomicU64,
    /// Released when the last pin drops.
    charge: Charge,
}

impl PageBuffer {
    /// The page's ordinal.
    pub closed spec fn spec_ordinal(&self) -> PageOrdinal {
        self.ordinal
    }

    /// The page's bytes.
    pub closed spec fn spec_bytes(&self) -> Seq<u8> {
        self.data@
    }

    /// What the page is charged.
    pub closed spec fn spec_charged(&self) -> u64 {
        self.charge.spec_bytes()
    }

    /// The budget the page is charged on.
    pub closed spec fn spec_owner(&self) -> Arc<Budget> {
        self.charge.owner()
    }

    /// Keeps a page's bytes with the charge that paid for them.
    pub fn new(ordinal: PageOrdinal, data: Vec<u8>, charge: Charge) -> (r: PageBuffer)
        ensures
            r.spec_ordinal() == ordinal,
            r.spec_bytes() == data@,
            r.spec_charged() == charge.spec_bytes(),
            r.spec_owner() == charge.owner(),
    {
        PageBuffer { ordinal, data, validated_for: AtomicU64::new(0), charge }
    }
}

/// A counted reference to a cached page.
///
/// Cloning counts one more. While any pin exists the bytes stay valid and the buffer keeps
/// its budget charge, whether or not the cache still lists it.
pub struct PagePin {
    buffer: Arc<PageBuffer>,
}

impl View for PagePin {
    type V = Seq<u8>;

    /// The bytes of the page.
    closed spec fn view(&self) -> Seq<u8> {
        self.buffer.spec_bytes()
    }
}

impl Clone for PagePin {
    fn clone(&self) -> (r: Self)
        ensures
            r == *self,
    {
        PagePin { buffer: Arc::clone(&self.buffer) }
    }
}

impl PagePin {
    /// The page's ordinal.
    pub closed spec fn spec_ordinal(&self) -> PageOrdinal {
        self.buffer.spec_ordinal()
    }

    /// What the page is charged.
    pub closed spec fn spec_charged(&self) -> u64 {
        self.buffer.spec_charged()
    }

    /// The budget the page is charged on.
    pub closed spec fn spec_owner(&self) -> Arc<Budget> {
        self.buffer.spec_owner()
    }

    /// Whether the page is paid for on a budget: its bytes, and what a buffer costs besides.
    /// Whoever holds the pin holds the charge with it.
    pub open spec fn paid(&self, budget: Arc<Budget>) -> bool {
        &&& self.spec_owner() == budget
        &&& self.spec_charged() == budget::capped(self@.len() + BUFFER_OVERHEAD)
    }

    /// Pins a buffer.
    pub fn new(buffer: Arc<PageBuffer>) -> (r: PagePin)
        ensures
            r@ == buffer.spec_bytes(),
            r.spec_ordinal() == buffer.spec_ordinal(),
            r.spec_charged() == buffer.spec_charged(),
            r.spec_owner() == buffer.spec_owner(),
    {
        PagePin { buffer }
    }

    /// The page's ordinal.
    pub fn ordinal(&self) -> (r: PageOrdinal)
        ensures
            r == self.spec_ordinal(),
    {
        self.buffer.ordinal
    }

    /// The whole page, including its 28-byte prefix.
    pub fn bytes(&self) -> (r: &[u8])
        ensures
            r@ == self@,
    {
        self.buffer.data.as_slice()
    }

    /// Page length in bytes.
    pub fn len(&self) -> (r: usize)
        ensures
            r == self@.len(),
    {
        self.buffer.data.len()
    }

    /// Whether the page is empty, which no page of a file is: it carries at least its
    /// prefix.
    pub fn is_empty(&self) -> (r: bool)
        ensures
            r == (self@.len() == 0),
    {
        self.buffer.data.len() == 0
    }

    /// Whether the mark on the page was read, and said that `tree` has checked its digests.
    pub closed spec fn marked(&self, tree: u64) -> bool {
        call_ensures(AtomicU64::load, (&self.buffer.validated_for, Ordering::Acquire), tree)
    }

    /// Whether the mark on the page was set to say that `tree` has checked its digests.
    pub closed spec fn told(&self, tree: u64) -> bool {
        call_ensures(AtomicU64::store, (&self.buffer.validated_for, tree, Ordering::Release), ())
    }

    /// Whether `tree` has already checked this page's digests.
    pub(crate) fn digests_checked_by(&self, tree: u64) -> (r: bool)
        ensures
            r ==> self.marked(tree),
    {
        self.buffer.validated_for.load(Ordering::Acquire) == tree
    }

    /// Records that `tree` has checked this page's digests.
    pub(crate) fn mark_digests_checked(&self, tree: u64)
        ensures
            self.told(tree),
    {
        self.buffer.validated_for.store(tree, Ordering::Release);
    }

    /// Parses the page structure. Cheap: the store already validated it on load.
    pub fn parsed(&self) -> (r: Result<PageView<'_>, Error>)
        ensures
            match r {
                Ok(v) => node::page_ok(self@) && v.page() == self@,
                Err(e) => !node::page_ok(self@) && e.is_corrupt(),
            },
    {
        match PageView::parse(self.buffer.data.as_slice()) {
            Ok(v) => Ok(v),
            Err(e) => Err(e.at_page(self.buffer.ordinal.get())),
        }
    }

    /// Turns the pin into a guard over `range`, checking the bounds.
    pub fn into_guard(self, range: Range<usize>) -> (r: Result<ValueGuard, Error>)
        ensures
            match r {
                Ok(g) => range.start <= range.end <= self@.len() && g.spec_pin() == self
                    && g.spec_start() == range.start && g.spec_end() == range.end,
                Err(e) => e.is_corrupt() && !(range.start <= range.end <= self@.len()),
            },
    {
        if range.start > range.end || range.end > self.buffer.data.len() {
            return Err(
                Error::corrupt_words(
                    Words::new("value range ")
                        .number(range.start as u64)
                        .say("..")
                        .number(range.end as u64)
                        .say(" is outside the ")
                        .number(self.buffer.data.len() as u64)
                        .say(" byte page"),
                ).at_page(self.buffer.ordinal.get()),
            );
        }
        Ok(ValueGuard { start: range.start, end: range.end, pin: self })
    }
}

/// A value, kept alive by the page it lives on.
///
/// The bytes are borrowed straight from the page buffer: reading a value copies
/// nothing. The guard can be sent to another thread, and outlives the database it came
/// from.
pub struct ValueGuard {
    pin: PagePin,
    start: usize,
    end: usize,
}

impl View for ValueGuard {
    type V = Seq<u8>;

    /// The value.
    open spec fn view(&self) -> Seq<u8> {
        self.spec_pin()@.subrange(self.spec_start() as int, self.spec_end() as int)
    }
}

impl Clone for ValueGuard {
    fn clone(&self) -> (r: Self)
        ensures
            r == *self,
    {
        proof {
            use_type_invariant(self);
        }
        ValueGuard { pin: self.pin.clone(), start: self.start, end: self.end }
    }
}

impl ValueGuard {
    #[verifier::type_invariant]
    spec fn inside(&self) -> bool {
        self.start <= self.end <= self.pin@.len()
    }

    /// The pin the guard holds.
    pub closed spec fn spec_pin(&self) -> PagePin {
        self.pin
    }

    /// Where the value starts in its page.
    pub closed spec fn spec_start(&self) -> usize {
        self.start
    }

    /// Where the value ends in its page.
    pub closed spec fn spec_end(&self) -> usize {
        self.end
    }

    /// The value bytes.
    #[inline]
    pub fn as_bytes(&self) -> (r: &[u8])
        ensures
            r@ == self@,
    {
        proof {
            use_type_invariant(self);
        }
        slice_subrange(self.pin.bytes(), self.start, self.end)
    }

    /// Value length in bytes.
    pub fn len(&self) -> (r: usize)
        ensures
            r == self@.len(),
    {
        proof {
            use_type_invariant(self);
        }
        self.end - self.start
    }

    /// Whether the value is empty.
    pub fn is_empty(&self) -> (r: bool)
        ensures
            r == (self@.len() == 0),
    {
        self.len() == 0
    }

    /// The page the value lives on.
    pub fn page(&self) -> (r: PageOrdinal)
        ensures
            r == self.spec_pin().spec_ordinal(),
    {
        self.pin.ordinal()
    }

    /// The value's byte range inside that page.
    pub fn range(&self) -> (r: Range<usize>)
        ensures
            r.start == self.spec_start(),
            r.end == self.spec_end(),
            r.start <= r.end <= self.spec_pin()@.len(),
    {
        proof {
            use_type_invariant(self);
        }
        Range { start: self.start, end: self.end }
    }

    /// The pin the guard holds.
    pub fn pin(&self) -> (r: &PagePin)
        ensures
            *r == self.spec_pin(),
    {
        &self.pin
    }

    /// Copies the value out, releasing nothing: the guard still holds its page.
    pub fn to_vec(&self) -> (r: Vec<u8>)
        ensures
            r@ == self@,
    {
        let mut out: Vec<u8> = Vec::new();
        crate::format::bytes::put_slice(&mut out, self.as_bytes());
        proof {
            assert(out@ =~= self@);
        }
        out
    }
}

} // verus!

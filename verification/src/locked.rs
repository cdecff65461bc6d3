//! What is said of a value behind a lock, and of a flag that threads share.
//!
//! Any thread may take a lock at any time, so nothing can be said of what a lock holds. What
//! can be said is what a function was given when it took the lock, and what it put back.

use std::sync::atomic::{AtomicBool, Ordering};

use vstd::prelude::*;
use vstd::rwlock::{RwLock, RwLockPredicate, WriteHandle};

verus! {

/// Says that the owner of a flag is gone: `AtomicBool::store`, which neither panics nor unwinds.
#[verifier::external_body]
pub(crate) fn mark_gone(alive: &AtomicBool)
    opens_invariants none
    no_unwind
{
    alive.store(false, Ordering::Release);
}

/// Whether a lock gave `a` out and took `b` back for it.
pub open spec fn passed<V, P: RwLockPredicate<V>>(lock: &RwLock<V, P>, a: V, b: V) -> bool {
    exists|handle: WriteHandle<V, P>| #[trigger] traded(lock, a, b, handle)
}

/// Whether a lock gave `a` out and took `b` back for it, by this handle.
pub open spec fn traded<V, P: RwLockPredicate<V>>(
    lock: &RwLock<V, P>,
    a: V,
    b: V,
    handle: WriteHandle<V, P>,
) -> bool {
    &&& call_ensures(RwLock::<V, P>::acquire_write, (lock,), (a, handle))
    &&& call_ensures(WriteHandle::<V, P>::release_write, (handle, b), ())
}

} // verus!

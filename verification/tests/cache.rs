use drydb::budget::Budget;
use drydb::cache::shard::{ring_bytes, ring_target_bytes, ShardInner};
use drydb::cache::PageCache;
use drydb::metrics::Metrics;
use drydb::page::PageBuffer;
use drydb::{Error, ErrorKind, PageOrdinal, PagePin};
use std::sync::atomic::{AtomicBool, AtomicU64, Ordering};
use std::sync::Arc;

fn make_pin(budget: &Arc<Budget>, ordinal: u64, size: usize) -> (PagePin, u64) {
    let charge = budget.try_reserve(size as u64).unwrap();
    let pin = PagePin::new(Arc::new(PageBuffer::new(
        PageOrdinal::new(ordinal),
        vec![0u8; size],
        charge,
    )));
    (pin, size as u64)
}

#[test]
fn serves_hits_without_loading() {
    let metrics = Arc::new(Metrics::new());
    let budget = Budget::new(1 << 20);
    let cache = PageCache::new(1 << 20, 4, Arc::clone(&metrics), Arc::clone(&budget));
    let loads = AtomicU64::new(0);

    for _ in 0..5 {
        cache
            .get_or_load(
                7,
                |bytes| budget.try_reserve(bytes),
                || {
                    loads.fetch_add(1, Ordering::SeqCst);
                    Ok(make_pin(&budget, 7, 64))
                },
            )
            .unwrap();
    }
    assert_eq!(loads.load(Ordering::SeqCst), 1);
    assert_eq!(metrics.snapshot().cache_hits, 4);
}

#[test]
fn evicts_down_to_capacity() {
    let metrics = Arc::new(Metrics::new());
    let budget = Budget::new(1 << 20);
    // One shard so the capacity maths is exact.
    let cache = PageCache::new(256, 1, Arc::clone(&metrics), Arc::clone(&budget));
    for i in 0..10u64 {
        cache
            .get_or_load(
                i,
                |bytes| budget.try_reserve(bytes),
                || Ok(make_pin(&budget, i, 64)),
            )
            .unwrap();
    }
    assert!(
        cache.resident_bytes() <= 256,
        "resident {}",
        cache.resident_bytes()
    );
    assert!(metrics.snapshot().evictions > 0);
}

#[test]
fn eviction_keeps_pinned_pages_alive() {
    let metrics = Arc::new(Metrics::new());
    let budget = Budget::new(1 << 20);
    let cache = PageCache::new(128, 1, Arc::clone(&metrics), Arc::clone(&budget));
    let held = cache
        .get_or_load(
            0,
            |bytes| budget.try_reserve(bytes),
            || Ok(make_pin(&budget, 0, 64)),
        )
        .unwrap();
    let guard = held.clone().into_guard(0..64).unwrap();
    for i in 1..10u64 {
        cache
            .get_or_load(
                i,
                |bytes| budget.try_reserve(bytes),
                || Ok(make_pin(&budget, i, 64)),
            )
            .unwrap();
    }
    assert!(cache.get(0).is_none(), "page 0 should have been evicted");
    assert_eq!(guard.as_bytes().len(), 64);
    assert!(budget.in_use() >= 64, "the pinned page keeps its charge");
}

/// Shrinking a table allocates the smaller one before it lets the bigger one go, so
/// both are live while the entries move. With no room for the pair of them, the
/// table is kept rather than shrunk past the budget.
#[test]
fn a_shard_keeps_its_table_when_the_move_cannot_be_reserved() {
    let metrics = Arc::new(Metrics::new());
    let budget = Budget::new(64 * 1024);
    let cache = PageCache::new(64 * 1024, 1, Arc::clone(&metrics), Arc::clone(&budget));
    for i in 0..200u64 {
        cache
            .get_or_load(
                i,
                |bytes| budget.try_reserve(bytes),
                || Ok(make_pin(&budget, i, 16)),
            )
            .unwrap();
    }
    let grown = cache.shard_slots(0).1;
    assert!(grown >= 200, "the table grew to hold them: {grown}");

    // Everything that is left, so the move a shrink needs has nowhere to go. The
    // pages themselves are small, so evicting them all does not give back enough.
    let mut held = Vec::new();
    while let Ok(charge) = budget.try_reserve(64) {
        held.push(charge);
    }

    // Enough to take the table past half empty, which is when it would be shrunk,
    // but not so much that the pages it gives back pay for the move.
    cache.evict_bytes(1_600);
    let (len, slots) = cache.shard_slots(0);
    assert!(len > 0 && slots > 2 * len, "half empty: {len} of {slots}");
    assert_eq!(
        slots, grown,
        "the table is kept when the move cannot be reserved"
    );

    // With the room back, the next entry to go takes the slots with it.
    drop(held);
    cache.evict_bytes(16);
    assert!(
        cache.shard_slots(0).1 < grown,
        "the slots go back once the move fits"
    );
}

/// A free slot in the ring is free for one push. Two loads in flight each saw the
/// same one and both decided the ring would not grow, so the second to publish grew
/// it with nothing covering it. What the ring will cost is now worked out from how
/// many pushes are coming, not from what each of them found when it started.
#[test]
fn a_free_ring_slot_is_free_for_one_push() {
    // Three held in a ring with room for four.
    assert_eq!(ring_target_bytes(4, 4), ring_bytes(4), "the fourth fits");
    assert!(
        ring_target_bytes(4, 5) > ring_bytes(4),
        "a fifth does not, and the ring it grows into is live beside the old one"
    );

    // Seventeen pushes coming at an empty ring: what it ends up with, and the buffer
    // it came from while the last growth moves across.
    assert_eq!(ring_target_bytes(0, 17), ring_bytes(32) + ring_bytes(16));
    // Once it has the room, nothing extra is needed to fill it.
    assert_eq!(ring_target_bytes(32, 17), ring_bytes(32));

    // Shrinking leaves a ring whose size is whatever it was asked for, and it
    // doubles from there: seven grows to fourteen, not to eight, and three to six,
    // not to four.
    assert_eq!(ring_target_bytes(7, 8), ring_bytes(14) + ring_bytes(7));
    assert_eq!(ring_target_bytes(7, 7), ring_bytes(7));
    assert_eq!(ring_target_bytes(3, 4), ring_bytes(6) + ring_bytes(3));
    // What a ring really grows to, measured: however little it had, a growth leaves
    // it with at least four.
    for (from, to) in [
        (0usize, 4usize),
        (1, 4),
        (2, 4),
        (3, 6),
        (5, 10),
        (7, 14),
        (9, 18),
    ] {
        assert_eq!(
            ring_target_bytes(from, from + 1),
            ring_bytes(to) + ring_bytes(to / 2),
            "a ring of {from} grows to {to}"
        );
    }
    assert_eq!(ring_target_bytes(1, 1), ring_bytes(1));
}

/// Shrinking the ring used to fit what it holds, taking away the slot a load in
/// flight had already been told it could use. That load then pushed into a ring with
/// nothing covering the room it needed.
#[test]
fn shrinking_the_ring_keeps_room_for_a_push_already_promised() {
    let budget = Budget::new(1 << 20);
    let mut inner = ShardInner::with_ring(8);
    let capacity = inner.ring_capacity();
    assert!(capacity >= 8, "a ring with room to give back: {capacity}");

    // One load in flight, which found a free slot and so reserved nothing for it.
    inner.promise(
        0,
        Arc::new(AtomicBool::new(true)),
        budget.try_reserve(0).unwrap(),
        &budget,
    );
    inner.release_bookkeeping(&budget);
    assert!(
        inner.ring_capacity() >= inner.ring_len() + 1,
        "the promised push still has a slot: {} for {} held",
        inner.ring_capacity(),
        inner.ring_len()
    );

    // With nothing in flight, the ring gives everything back.
    inner.withdraw(0);
    inner.release_bookkeeping(&budget);
    assert_eq!(inner.ring_capacity(), 0);
}

/// Seventeen loads started before any of them finishes: by the time the last one
/// publishes, the ring has grown under all the others, and what it reserved when it
/// started is for a ring several sizes smaller.
#[test]
fn a_load_that_publishes_last_reserved_for_the_ring_it_finds() {
    let metrics = Arc::new(Metrics::new());
    let budget = Budget::new(1 << 20);
    let cache = PageCache::new(1 << 20, 1, Arc::clone(&metrics), Arc::clone(&budget));

    // Every marker goes in first, then every page is published, which is the order a
    // wave of concurrent misses arrives in.
    for i in 0..17u64 {
        cache
            .get_or_load(
                i,
                |bytes| budget.try_reserve(bytes),
                || Ok(make_pin(&budget, i, 16)),
            )
            .unwrap();
        let (footprint, charged) = cache.shard_bookkeeping(0);
        assert!(
            charged >= footprint,
            "after {} loads the shard costs {footprint} bytes with {charged} charged",
            i + 1
        );
    }
}

/// A ring that has been shrunk holds whatever it was shrunk to, which is not a power
/// of two. Growing it again doubles from there, and the estimate used to assume
/// otherwise and come up short.
#[test]
fn a_shrunk_ring_that_grows_again_is_reserved_for_what_it_doubles_to() {
    let metrics = Arc::new(Metrics::new());
    let budget = Budget::new(1 << 20);
    let cache = PageCache::new(1 << 20, 1, Arc::clone(&metrics), Arc::clone(&budget));

    let load = |ordinal: u64| {
        cache
            .get_or_load(
                ordinal,
                |bytes| budget.try_reserve(bytes),
                || Ok(make_pin(&budget, ordinal, 64)),
            )
            .unwrap()
    };
    for i in 0..16u64 {
        load(i);
    }
    // Enough of them out that the ring is shrunk, and then one more in.
    cache.evict_bytes(9 * 64);
    load(100);

    let (footprint, charged) = cache.shard_bookkeeping(0);
    assert!(
        charged >= footprint,
        "the shard costs {footprint} bytes with {charged} charged"
    );
}

/// A load that fails is not cached, and the next one is tried.
#[test]
fn a_failed_load_is_not_cached() {
    let metrics = Arc::new(Metrics::new());
    let budget = Budget::new(1 << 20);
    let cache = PageCache::new(1 << 20, 2, Arc::clone(&metrics), Arc::clone(&budget));
    let err = cache
        .get_or_load(
            1,
            |bytes| budget.try_reserve(bytes),
            || Err(Error::new(ErrorKind::CorruptData, "boom")),
        )
        .err()
        .unwrap();
    assert_eq!(err.kind(), ErrorKind::CorruptData);
    assert!(cache.get(1).is_none());
    let pin = cache
        .get_or_load(
            1,
            |bytes| budget.try_reserve(bytes),
            || Ok(make_pin(&budget, 1, 32)),
        )
        .unwrap();
    assert_eq!(pin.ordinal(), PageOrdinal::new(1));
    assert_eq!(cache.resident_bytes(), 32);
    assert_eq!(cache.capacity(), 1 << 20);
}

/// A miss whose marker cannot be paid for does not load, and gives the reservation's error.
#[test]
fn a_refused_marker_keeps_the_load_from_running() {
    let metrics = Arc::new(Metrics::new());
    let budget = Budget::new(1 << 20);
    let cache = PageCache::new(1 << 20, 2, Arc::clone(&metrics), Arc::clone(&budget));
    let tight = Budget::new(8);
    let loads = AtomicU64::new(0);
    let err = cache
        .get_or_load(
            5,
            |bytes| tight.try_reserve(bytes),
            || {
                loads.fetch_add(1, Ordering::SeqCst);
                Ok(make_pin(&budget, 5, 32))
            },
        )
        .err()
        .unwrap();
    assert_eq!(err.kind(), ErrorKind::BudgetExceeded);
    assert_eq!(err.budget_info().unwrap().limit, 8);
    assert_eq!(loads.load(Ordering::SeqCst), 0);
    assert_eq!(cache.len(), 0);
    assert!(cache.get(5).is_none());
}

/// The marker of a load is a flag that the load lowers.
#[test]
fn a_load_in_flight_is_found_by_its_flag() {
    let budget = Budget::new(1 << 20);
    let mut inner = ShardInner::new();
    let flag = Arc::new(AtomicBool::new(true));
    inner.promise(3, Arc::clone(&flag), budget.try_reserve(4096).unwrap(), &budget);
    let seen = inner.in_flight(3).unwrap();
    assert!(seen.load(Ordering::SeqCst));
    flag.store(false, Ordering::SeqCst);
    assert!(!seen.load(Ordering::SeqCst));
    assert!(inner.in_flight(4).is_none());
    inner.withdraw(3);
    assert!(inner.in_flight(3).is_none());
}

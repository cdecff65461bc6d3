use drydb::budget::{hash_table_bytes, hash_table_peak_bytes, HASH_GROUP};
use drydb::{Budget, Charged, ErrorKind, Reserve};
use std::sync::Arc;

#[test]
fn absorbing_a_charge_keeps_the_bytes_and_drops_the_reference() {
    let budget = Budget::new(100);
    let mut a = budget.try_reserve(10).unwrap();
    let b = budget.try_reserve(20).unwrap();
    a.absorb(b);
    assert_eq!(a.bytes(), 30);
    assert_eq!(budget.in_use(), 30);
    // Only the test and `a` hold the budget; the absorbed charge let go of it.
    assert_eq!(Arc::strong_count(&budget), 2);
    drop(a);
    assert_eq!(budget.in_use(), 0);
    assert_eq!(Arc::strong_count(&budget), 1);
}

#[test]
fn reserves_and_releases() {
    let budget = Budget::new(100);
    let a = budget.try_reserve(60).unwrap();
    assert_eq!(budget.in_use(), 60);
    let b = budget.try_reserve(40).unwrap();
    assert_eq!(budget.in_use(), 100);
    assert_eq!(
        budget.try_reserve(1).err().unwrap().kind(),
        ErrorKind::BudgetExceeded
    );
    drop(b);
    assert_eq!(budget.in_use(), 60);
    let _c = budget.try_reserve(40).unwrap();
    drop(a);
    assert_eq!(budget.in_use(), 40);
    assert_eq!(budget.peak(), 100);
}

#[test]
fn distinguishes_retryable_from_impossible() {
    let budget = Budget::new(100);
    let _a = budget.try_reserve(90).unwrap();
    let err = budget.try_reserve(20).err().unwrap();
    assert!(err.is_retryable());
    let err = budget.try_reserve(200).err().unwrap();
    assert!(!err.is_retryable());
    let info = err.budget_info().unwrap();
    assert_eq!(info.requested, 200);
    assert_eq!(info.limit, 100);
}

/// A table that has to grow allocates the new one, moves the entries across and only
/// then lets the old one go. A reservation for the difference between the two is
/// short by the old table for as long as the move takes.
#[test]
fn a_growing_table_is_charged_for_both_halves_of_the_move() {
    const ENTRY: usize = 32;
    // Seven entries in a table that holds seven: the next one rehashes it.
    let before = hash_table_bytes(7, ENTRY);
    let after = hash_table_bytes(14, ENTRY);
    assert!(after > before, "{after} follows {before}");
    assert_eq!(hash_table_peak_bytes(7, 7, 7, ENTRY), before + after);

    // With a free slot there is no move, so there is nothing extra to cover.
    assert_eq!(hash_table_peak_bytes(7, 7, 6, ENTRY), before);

    // Removals leave slots the table will not hand out again, so what it will still
    // take can be less than its size suggests. The entry that rehashes it is then
    // one the size alone said there was room for.
    assert_eq!(hash_table_peak_bytes(7, 4, 4, ENTRY), before + after);

    // An empty table has nothing to hold on to while it takes its first entry.
    assert_eq!(hash_table_bytes(0, ENTRY), 0);
    assert_eq!(
        hash_table_peak_bytes(0, 0, 0, ENTRY),
        hash_table_bytes(1, ENTRY)
    );
}

/// The figure is what a table of that many buckets really allocates, rounded up to
/// the alignment it asks for, so a charge computed from it is never short.
#[test]
fn a_table_is_charged_by_its_buckets() {
    const ENTRY: usize = 32;
    // Three entries live in four buckets, four need eight, seven fit eight, fourteen
    // sixteen.
    for (entries, buckets) in [(1usize, 4u64), (3, 4), (4, 8), (7, 8), (14, 16), (224, 256)] {
        let want = (buckets * (ENTRY as u64 + 1) + HASH_GROUP).next_multiple_of(HASH_GROUP);
        assert_eq!(hash_table_bytes(entries, ENTRY), want, "entries {entries}");
    }
}

#[test]
fn a_charge_grows_shrinks_and_extends_within_the_limit() {
    let budget = Budget::new(50);
    let mut charge = budget.try_reserve(10).unwrap();
    charge.grow(20).unwrap();
    assert_eq!(charge.bytes(), 30);
    assert_eq!(budget.in_use(), 30);
    charge.grow(20).unwrap();
    assert_eq!(charge.bytes(), 50);
    let err = charge.grow(1).err().unwrap();
    assert_eq!(err.kind(), ErrorKind::BudgetExceeded);
    assert_eq!(charge.bytes(), 50);
    // A sum that no number can hold is refused as well.
    assert!(charge.grow(u64::MAX).is_err());
    charge.shrink(45);
    assert_eq!(charge.bytes(), 5);
    assert_eq!(budget.in_use(), 5);
    assert_eq!(budget.peak(), 50);
    charge.shrink(100);
    assert_eq!(charge.bytes(), 0);
    drop(charge);
    assert_eq!(budget.in_use(), 0);
}

#[test]
fn a_charged_value_gives_its_bytes_back_when_it_goes() {
    let budget = Budget::new(100);
    let charge = budget.reserve(40).unwrap();
    let held = Charged::new(vec![1, 2, 3], charge);
    assert_eq!(held.get(), &vec![1, 2, 3]);
    assert_eq!(held.charged_bytes(), 40);
    assert_eq!(budget.in_use(), 40);
    let (value, charge) = held.into_inner();
    assert_eq!(value, vec![1, 2, 3]);
    assert_eq!(budget.in_use(), 40);
    drop(charge);
    assert_eq!(budget.in_use(), 0);
}

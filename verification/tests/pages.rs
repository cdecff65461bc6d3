use drydb::btree::within::check_ascending;
use drydb::page::PageBuffer;
use drydb::{Budget, ErrorKind, PageOrdinal, PagePin, SharedEncoding};
use std::sync::Arc;

fn pin_of(data: Vec<u8>) -> PagePin {
    let budget = Budget::new(1 << 20);
    let charge = budget.try_reserve(data.len() as u64).unwrap();
    PagePin::new(Arc::new(PageBuffer::new(
        PageOrdinal::new(3),
        data,
        charge,
    )))
}

#[test]
fn guard_borrows_the_page() {
    let pin = pin_of(b"0123456789".to_vec());
    let guard = pin.clone().into_guard(2..5).unwrap();
    assert_eq!(guard.as_bytes(), b"234");
    assert_eq!(guard.page(), PageOrdinal::new(3));
    drop(pin);
    // The guard still owns a reference, so the bytes stay valid.
    assert_eq!(guard.as_bytes(), b"234");
}

#[test]
fn guard_rejects_out_of_range() {
    let pin = pin_of(b"abc".to_vec());
    assert!(pin.clone().into_guard(0..4).is_err());
    // A reversed range is rejected rather than treated as empty.
    let reversed = std::ops::Range {
        start: 3usize,
        end: 2usize,
    };
    assert!(pin.into_guard(reversed).is_err());
}

#[test]
fn charge_is_released_with_the_last_pin() {
    let budget = Budget::new(1 << 20);
    let charge = budget.try_reserve(16).unwrap();
    let pin = PagePin::new(Arc::new(PageBuffer::new(
        PageOrdinal::new(0),
        vec![0u8; 16],
        charge,
    )));
    let guard = pin.clone().into_guard(0..8).unwrap();
    assert_eq!(budget.in_use(), 16);
    drop(pin);
    assert_eq!(budget.in_use(), 16, "a live guard keeps the charge");
    drop(guard);
    assert_eq!(budget.in_use(), 0);
}

#[test]
fn a_guard_knows_its_range_and_its_length() {
    let pin = pin_of(b"0123456789".to_vec());
    assert_eq!(pin.len(), 10);
    assert!(!pin.is_empty());
    assert_eq!(pin.ordinal(), PageOrdinal::new(3));
    let guard = pin.clone().into_guard(4..4).unwrap();
    assert!(guard.is_empty());
    assert_eq!(guard.range(), 4..4);
    let guard = pin.into_guard(7..10).unwrap();
    assert_eq!(guard.len(), 3);
    assert_eq!(guard.to_vec(), b"789".to_vec());
    assert_eq!(guard.pin().bytes(), b"0123456789");
}

/// A page whose keys do not ascend is corrupt, and the error names the entry without its key.
#[test]
fn keys_out_of_order_are_named_by_their_place_alone() {
    let e = SharedEncoding::ascii();
    assert!(check_ascending(&e, b"apple", b"banana", 3).is_ok());
    for (previous, key) in [("banana", "apple"), ("apple", "apple")] {
        let err = check_ascending(&e, previous.as_bytes(), key.as_bytes(), 3)
            .err()
            .unwrap();
        assert_eq!(err.kind(), ErrorKind::CorruptData);
        let text = err.to_text();
        assert!(text.contains("entry 3 does not sort above the previous entry"));
        assert!(!text.contains("apple") && !text.contains("banana"));
    }
}

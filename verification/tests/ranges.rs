use drydb::query::range::prefix_range;
use drydb::{Bound, KeyRange};

#[test]
fn prefix_range_increments_the_last_byte() {
    let r = prefix_range(b"ab");
    assert_eq!(r.lower, Bound::Included(b"ab".to_vec()));
    assert_eq!(r.upper, Bound::Excluded(b"ac".to_vec()));
}

#[test]
fn prefix_range_strips_trailing_ff() {
    let r = prefix_range(&[0x61, 0xff, 0xff]);
    assert_eq!(r.lower, Bound::Included(vec![0x61, 0xff, 0xff]));
    assert_eq!(r.upper, Bound::Excluded(vec![0x62]));
}

#[test]
fn prefix_range_of_all_ff_is_open_ended() {
    let r = prefix_range(&[0xff, 0xff]);
    assert_eq!(r.upper, Bound::Unbounded);
}

#[test]
fn empty_prefix_matches_everything() {
    assert_eq!(prefix_range(b""), KeyRange::all());
}

#[test]
fn a_point_range_holds_one_key_and_the_empty_range_none() {
    let r = KeyRange::point(b"k");
    assert_eq!(r.lower, Bound::Included(b"k".to_vec()));
    assert_eq!(r.upper, Bound::Included(b"k".to_vec()));
    assert!(!r.is_empty());
    assert!(KeyRange::empty().is_empty());
    let r = KeyRange::new(Bound::Excluded(b"a"), Bound::Unbounded);
    assert_eq!(r, KeyRange::from_bounds(Bound::Excluded(b"a".to_vec()), Bound::Unbounded));
}

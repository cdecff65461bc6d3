use drydb::format::eytzinger::{complete_size, scatter_eytzinger};
use drydb::format::header::Header;
use drydb::format::node::{
    LeafValue, NodeKind, PageView, FLAG_COMPACT_META, FLAG_EYTZINGER, FLAG_OMITTED_KEYS,
};
use drydb::format::pageref::PAGE_REF_LEN;
use drydb::format::HEADER_LEN;
use drydb::{ErrorKind, FileOffset, PageLocalOffset, PageOrdinal, PageRef};

fn sample() -> Header {
    Header {
        major_version: 1,
        minor_version: 4,
        page_filter_count: 0,
        page_size: 4096,
        table_count: 1,
        page_count: 3,
        page_directory_position: FileOffset::new(1024),
    }
}

#[test]
fn header_round_trips() {
    let h = sample();
    assert_eq!(Header::parse(&h.encode()).unwrap(), h);
}

#[test]
fn rejects_bad_magic() {
    let mut bytes = sample().encode();
    bytes[0] = b'X';
    assert_eq!(
        Header::parse(&bytes).unwrap_err().kind(),
        ErrorKind::UnsupportedFormat
    );
}

#[test]
fn rejects_other_versions() {
    for (major, minor) in [(1u8, 3u8), (1, 5), (2, 4), (0, 0)] {
        let mut h = sample();
        h.major_version = major;
        h.minor_version = minor;
        assert_eq!(
            Header::parse(&h.encode()).unwrap_err().kind(),
            ErrorKind::UnsupportedFormat,
            "{major}.{minor} must be rejected"
        );
    }
}

#[test]
fn rejects_truncated_input() {
    let bytes = sample().encode();
    for len in 0..HEADER_LEN {
        assert!(Header::parse(&bytes[..len]).is_err());
    }
}

#[test]
fn rejects_negative_scalars() {
    let mut bytes = sample().encode();
    bytes[8..12].copy_from_slice(&(-1i32).to_le_bytes());
    assert_eq!(
        Header::parse(&bytes).unwrap_err().kind(),
        ErrorKind::CorruptData
    );

    let mut bytes = sample().encode();
    bytes[14..18].copy_from_slice(&(-5i32).to_le_bytes());
    assert_eq!(
        Header::parse(&bytes).unwrap_err().kind(),
        ErrorKind::CorruptData
    );

    let mut bytes = sample().encode();
    bytes[18..26].copy_from_slice(&(-1i64).to_le_bytes());
    assert_eq!(
        Header::parse(&bytes).unwrap_err().kind(),
        ErrorKind::CorruptData
    );
}

#[test]
fn pageref_round_trips() {
    let r = PageRef {
        page: PageOrdinal::new(7),
        start: PageLocalOffset::new(28),
        length: 12,
    };
    assert_eq!(PageRef::parse(&r.encode()).unwrap(), r);
}

#[test]
fn rejects_short_input() {
    assert!(PageRef::parse(&[0u8; 15]).is_err());
}

#[test]
fn rejects_empty_ordinal() {
    let mut bytes = [0u8; PAGE_REF_LEN];
    bytes[0..8].copy_from_slice(&(-1i64).to_le_bytes());
    assert!(PageRef::parse(&bytes).is_err());
}

#[test]
fn range_is_bounds_checked() {
    let r = PageRef {
        page: PageOrdinal::new(1),
        start: PageLocalOffset::new(30),
        length: 10,
    };
    assert!(r.range(39).is_err());
    assert_eq!(r.range(40).unwrap(), 30..40);
}

#[test]
fn eytzinger_scatter_matches_upstream_shape() {
    // Sorted [10,20,30] into a complete tree of 3 slots: root is the median.
    let mut slots = vec![0u64; complete_size(3)];
    scatter_eytzinger(&[10, 20, 30], &mut slots);
    assert_eq!(slots, vec![20, 10, 30]);
}

#[test]
fn eytzinger_scatter_pads_with_max() {
    let mut slots = vec![0u64; complete_size(2)];
    scatter_eytzinger(&[10, 20], &mut slots);
    assert_eq!(slots.len(), 3);
    assert_eq!(slots[0], 20);
    assert_eq!(slots[1], 10);
    assert_eq!(slots[2], u64::MAX);
}

#[test]
fn complete_size_matches_upstream() {
    assert_eq!(complete_size(0), 0);
    assert_eq!(complete_size(1), 1);
    assert_eq!(complete_size(2), 3);
    assert_eq!(complete_size(3), 3);
    assert_eq!(complete_size(4), 7);
    assert_eq!(complete_size(7), 7);
    assert_eq!(complete_size(8), 15);
}

fn page_prefix(kind: i32, entry_count: i32, len: usize) -> Vec<u8> {
    let mut page = vec![0u8; len];
    page[0..4].copy_from_slice(&(len as i32).to_le_bytes());
    page[4..8].copy_from_slice(&kind.to_le_bytes());
    page[8..12].copy_from_slice(&entry_count.to_le_bytes());
    page[12..20].copy_from_slice(&(-1i64).to_le_bytes());
    page[20..28].copy_from_slice(&(-1i64).to_le_bytes());
    page
}

#[test]
fn parses_a_blob_page() {
    let mut page = page_prefix(0, 0, 40);
    page[28..].copy_from_slice(b"hello world!");
    let view = PageView::parse(&page).unwrap();
    assert_eq!(view.kind(), NodeKind::Leaf);
    assert_eq!(view.entry_count(), 0);
    assert_eq!(view.blob_payload(), b"hello world!");
    view.validate().unwrap();
}

#[test]
fn rejects_page_length_mismatch() {
    let mut page = page_prefix(0, 0, 40);
    page[0..4].copy_from_slice(&41i32.to_le_bytes());
    assert!(PageView::parse(&page).is_err());
}

#[test]
fn rejects_unknown_flags() {
    let page = page_prefix(1 << 12, 0, 40);
    assert!(PageView::parse(&page).is_err());
}

#[test]
fn rejects_retired_digest_flag() {
    let page = page_prefix(1 << 8, 0, 40);
    assert!(PageView::parse(&page).is_err());
}

#[test]
fn rejects_omitted_keys_without_compact_meta() {
    let page = page_prefix(FLAG_OMITTED_KEYS, 0, 40);
    assert!(PageView::parse(&page).is_err());
}

#[test]
fn rejects_omitted_keys_with_eytzinger() {
    let page = page_prefix(
        FLAG_OMITTED_KEYS | FLAG_COMPACT_META | FLAG_EYTZINGER,
        0,
        40,
    );
    assert!(PageView::parse(&page).is_err());
}

#[test]
fn rejects_entry_count_that_does_not_fit() {
    let page = page_prefix(0, 1000, 64);
    assert!(PageView::parse(&page).is_err());
}

/// Classic leaf with one entry: key "ab", value "xyz".
fn classic_leaf() -> Vec<u8> {
    let entry_count = 1usize;
    let digest_area = entry_count * 8;
    let meta_area = entry_count * 8;
    let payload_base = 28 + digest_area + meta_area;
    let len = payload_base + 2 + 3;
    let mut page = page_prefix(0, entry_count as i32, len);
    page[28..36].copy_from_slice(&0x6162_0000_0000_0000u64.to_le_bytes());
    let meta = 28 + digest_area;
    page[meta..meta + 4].copy_from_slice(&(payload_base as i32).to_le_bytes());
    page[meta + 4..meta + 6].copy_from_slice(&2u16.to_le_bytes());
    page[meta + 6..meta + 8].copy_from_slice(&3u16.to_le_bytes());
    page[payload_base..payload_base + 2].copy_from_slice(b"ab");
    page[payload_base + 2..payload_base + 5].copy_from_slice(b"xyz");
    page
}

#[test]
fn decodes_a_classic_leaf_entry() {
    let page = classic_leaf();
    let view = PageView::parse(&page).unwrap();
    view.validate().unwrap();
    let entry = view.leaf_entry(0).unwrap();
    assert_eq!(view.leaf_key(&entry).unwrap(), b"ab");
    match entry.value {
        LeafValue::Inline { offset, len } => {
            assert_eq!(view.inline_value(offset, len).unwrap(), b"xyz")
        }
        LeafValue::Overflow { .. } => panic!("expected inline"),
    }
    assert_eq!(view.digest_at(0).unwrap(), 0x6162_0000_0000_0000);
}

#[test]
fn rejects_payload_pointing_into_metadata() {
    let mut page = classic_leaf();
    let meta = 28 + 8;
    page[meta..meta + 4].copy_from_slice(&4i32.to_le_bytes());
    let view = PageView::parse(&page).unwrap();
    assert!(view.validate().is_err());
}

#[test]
fn rejects_payload_past_the_page_end() {
    let mut page = classic_leaf();
    let meta = 28 + 8;
    page[meta + 6..meta + 8].copy_from_slice(&9000u16.to_le_bytes());
    let view = PageView::parse(&page).unwrap();
    assert!(view.validate().is_err());
}

#[test]
fn lower_bound_rank_on_sorted_digests() {
    let entry_count = 4usize;
    let digest_area = entry_count * 8;
    let meta_area = entry_count * 8;
    let payload_base = 28 + digest_area + meta_area;
    let mut page = page_prefix(0, entry_count as i32, payload_base);
    for (i, d) in [10u64, 20, 20, 30].iter().enumerate() {
        page[28 + i * 8..36 + i * 8].copy_from_slice(&d.to_le_bytes());
    }
    for i in 0..entry_count {
        let meta = 28 + digest_area + i * 8;
        page[meta..meta + 4].copy_from_slice(&(payload_base as i32).to_le_bytes());
    }
    let view = PageView::parse(&page).unwrap();
    assert_eq!(view.lower_bound_rank(5).unwrap(), 0);
    assert_eq!(view.lower_bound_rank(10).unwrap(), 0);
    assert_eq!(view.lower_bound_rank(15).unwrap(), 1);
    assert_eq!(view.lower_bound_rank(20).unwrap(), 1);
    assert_eq!(view.lower_bound_rank(25).unwrap(), 3);
    assert_eq!(view.lower_bound_rank(30).unwrap(), 3);
    assert_eq!(view.lower_bound_rank(31).unwrap(), 4);
}

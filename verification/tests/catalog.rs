use drydb::format::catalog::{encode_index_descriptor, parse, CatalogParse};
use drydb::format::header::Header;
use drydb::format::HEADER_LEN;
use drydb::{Budget, Error, ErrorKind, FileOffset, PageOrdinal, ValueKind};

fn build_bytes() -> (Vec<u8>, Header) {
    let header = Header {
        major_version: 1,
        minor_version: 4,
        page_filter_count: 1,
        page_size: 4096,
        table_count: 1,
        page_count: 2,
        page_directory_position: FileOffset::new(512),
    };
    let mut out = header.encode().to_vec();
    out.push(3);
    out.extend_from_slice(b"zst");
    out.extend_from_slice(&(5i32).to_le_bytes());
    out.extend_from_slice(b"users");
    out.extend_from_slice(
        &encode_index_descriptor("users_pk", "i64", true, ValueKind::RawData, 7).unwrap(),
    );
    out.extend_from_slice(&1u16.to_le_bytes());
    out.extend_from_slice(
        &encode_index_descriptor("by_name", "ascii", false, ValueKind::PageRef, 9).unwrap(),
    );
    (out, header)
}

fn parse_all(bytes: &[u8], header: &Header) -> Result<CatalogParse, Error> {
    let budget = Budget::new(u64::MAX / 2);
    let mut charge = budget.try_reserve(0).unwrap();
    parse(
        bytes,
        header.page_filter_count,
        header.table_count,
        header.page_size,
        header.page_count,
        header.page_directory_position,
        &mut charge,
    )
}

#[test]
fn parses_a_full_catalog() {
    let (bytes, header) = build_bytes();
    let catalog = match parse_all(&bytes, &header).unwrap() {
        CatalogParse::Complete(c) => *c,
        CatalogParse::NeedMore(_) => panic!("unexpected truncation"),
    };
    assert_eq!(catalog.filters, vec!["zst".to_string()]);
    assert_eq!(catalog.tables.len(), 1);
    let table = &catalog.tables[0];
    assert_eq!(table.name, "users");
    assert_eq!(table.primary.key_encoding_id, "i64");
    assert!(table.primary.is_unique);
    assert_eq!(table.primary.root, Some(PageOrdinal::new(7)));
    assert_eq!(table.secondaries.len(), 1);
    assert_eq!(table.secondaries[0].name, "by_name");
    assert_eq!(table.secondaries[0].value_kind, ValueKind::PageRef);
    assert!(!table.secondaries[0].is_unique);
    assert_eq!(catalog.descriptor_end as usize, bytes.len());
}

#[test]
fn reports_need_more_for_every_prefix() {
    let (bytes, header) = build_bytes();
    for len in HEADER_LEN..bytes.len() {
        match parse_all(&bytes[..len], &header).unwrap() {
            CatalogParse::NeedMore(n) => assert!(n > len, "need {n} must exceed {len}"),
            CatalogParse::Complete(_) => panic!("prefix of {len} bytes parsed as complete"),
        }
    }
}

#[test]
fn rejects_invalid_utf8_names() {
    let (mut bytes, header) = build_bytes();
    let pos = bytes.windows(5).position(|w| w == b"users").unwrap();
    bytes[pos] = 0xff;
    assert_eq!(
        parse_all(&bytes, &header).unwrap_err().kind(),
        ErrorKind::CorruptData
    );
}

#[test]
fn rejects_out_of_range_is_unique() {
    let (mut bytes, header) = build_bytes();
    let pos = bytes.len() - 10;
    bytes[pos] = 42;
    assert_eq!(
        parse_all(&bytes, &header).unwrap_err().kind(),
        ErrorKind::CorruptData
    );
}

#[test]
fn rejects_unknown_value_kind() {
    let (mut bytes, header) = build_bytes();
    // The last descriptor's tail is is_unique(1) value_kind(1) root(8).
    let pos = bytes.len() - 9;
    bytes[pos] = 42;
    assert_eq!(
        parse_all(&bytes, &header).unwrap_err().kind(),
        ErrorKind::UnsupportedFormat
    );
}

#[test]
fn root_field_offset_points_at_the_root_bytes() {
    let (bytes, header) = build_bytes();
    let catalog = match parse_all(&bytes, &header).unwrap() {
        CatalogParse::Complete(c) => *c,
        CatalogParse::NeedMore(_) => panic!(),
    };
    let off = catalog.tables[0].primary.root_field_offset as usize;
    assert_eq!(
        i64::from_le_bytes(bytes[off..off + 8].try_into().unwrap()),
        7
    );
}

#[test]
fn a_catalog_that_does_not_fit_the_budget_is_refused() {
    let (bytes, header) = build_bytes();
    let budget = Budget::new(64);
    let mut charge = budget.try_reserve(0).unwrap();
    let err = parse(
        &bytes,
        header.page_filter_count,
        header.table_count,
        header.page_size,
        header.page_count,
        header.page_directory_position,
        &mut charge,
    )
    .unwrap_err();
    assert_eq!(err.kind(), ErrorKind::BudgetExceeded);
}

#[test]
fn a_table_and_an_index_are_found_by_name() {
    let (bytes, header) = build_bytes();
    let catalog = match parse_all(&bytes, &header).unwrap() {
        CatalogParse::Complete(c) => *c,
        CatalogParse::NeedMore(_) => panic!(),
    };
    let table = catalog.table("users").unwrap();
    assert_eq!(table.secondary("by_name").unwrap().root, Some(PageOrdinal::new(9)));
    assert!(table.secondary("users_pk").is_none());
    assert!(catalog.table("others").is_none());
}

/// What is cut off asks for no more than there is in the end.
#[test]
fn a_cut_catalog_never_asks_for_more_than_the_whole() {
    let (bytes, header) = build_bytes();
    for len in HEADER_LEN..bytes.len() {
        match parse_all(&bytes[..len], &header).unwrap() {
            CatalogParse::NeedMore(n) => assert!(len < n && n <= bytes.len(), "{n} at {len}"),
            CatalogParse::Complete(_) => panic!("prefix of {len} bytes parsed as complete"),
        }
    }
}

/// A secondary index may not have the name of the primary one.
#[test]
fn an_index_named_like_the_primary_one_is_corrupt() {
    let (bytes, header) = build_bytes();
    let mut out = bytes[..bytes.len() - encode_index_descriptor("by_name", "ascii", false, ValueKind::PageRef, 9).unwrap().len()].to_vec();
    out.extend_from_slice(
        &encode_index_descriptor("users_pk", "ascii", false, ValueKind::PageRef, 9).unwrap(),
    );
    assert_eq!(parse_all(&out, &header).err().unwrap().kind(), ErrorKind::CorruptData);
}

/// Two secondary indexes may not share a name either.
#[test]
fn two_indexes_of_one_name_are_corrupt() {
    let (bytes, header) = build_bytes();
    let one = encode_index_descriptor("by_name", "ascii", false, ValueKind::PageRef, 9).unwrap();
    let at = bytes.len() - one.len();
    let mut out = bytes.clone();
    out[at - 2..at].copy_from_slice(&2u16.to_le_bytes());
    out.extend_from_slice(&one);
    assert_eq!(parse_all(&out, &header).err().unwrap().kind(), ErrorKind::CorruptData);
}

/// What is shorter than a header needs a header first.
#[test]
fn a_buffer_without_a_whole_header_needs_more() {
    let (bytes, header) = build_bytes();
    for len in 0..HEADER_LEN {
        match parse_all(&bytes[..len], &header).unwrap() {
            CatalogParse::NeedMore(n) => assert!(n > len && n <= bytes.len(), "{n} at {len}"),
            CatalogParse::Complete(_) => panic!("prefix of {len} bytes parsed as complete"),
        }
    }
}

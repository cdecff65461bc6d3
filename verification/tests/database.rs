use drydb::builder::tree::extra_bytes;
use drydb::{
    Bound, CachedLookup, Database, DatabaseBuilder, Error, ErrorKind, Int64Encoding, Limits,
    OpenOptions, Order, SecondaryKeyFn, SharedEncoding, SharedFilter, SharedKeyFn, VerifyOptions, ZstdFilter,
};
use std::sync::Arc;

/// The value itself is the index key.
struct ByValue;

impl SecondaryKeyFn for ByValue {
    fn derive(&self, _key: &[u8], value: &[u8]) -> Result<Vec<u8>, Error> {
        Ok(value.to_vec())
    }
}

/// The first byte of the value is the index key, and an empty value has none.
struct ByFirstByte;

impl SecondaryKeyFn for ByFirstByte {
    fn derive(&self, _key: &[u8], value: &[u8]) -> Result<Vec<u8>, Error> {
        match value.first() {
            Some(b) => Ok(vec![*b]),
            None => Err(Error::new(ErrorKind::InvalidArgument, "an empty value")),
        }
    }
}

fn by_value() -> SharedKeyFn {
    SharedKeyFn {
        inner: Arc::new(Box::new(ByValue)),
    }
}

fn by_first_byte() -> SharedKeyFn {
    SharedKeyFn {
        inner: Arc::new(Box::new(ByFirstByte)),
    }
}

fn i64_key(v: i64) -> [u8; 8] {
    Int64Encoding::encode(v)
}

/// Rows in an order that is not the key order, so the builder has to sort.
fn shuffled(n: i64) -> Vec<i64> {
    (0..n).map(|i| (i * 7919) % n).collect()
}

fn items(n: i64, page_size: usize) -> Vec<u8> {
    let mut builder = DatabaseBuilder::new().page_size(page_size).unwrap();
    let table = builder.create_table("items", SharedEncoding::int64()).unwrap();
    builder
        .add_secondary_index(table, "by_name", true, SharedEncoding::ascii(), by_value())
        .unwrap();
    builder
        .add_secondary_index(
            table,
            "by_letter",
            false,
            SharedEncoding::ascii(),
            by_first_byte(),
        )
        .unwrap();
    for id in shuffled(n) {
        let letter = (b'a' + (id % 5) as u8) as char;
        let name = format!("{letter}-{id:05}");
        builder.append(table, &i64_key(id), name.as_bytes()).unwrap();
    }
    builder.build_to_vec().unwrap()
}

#[test]
fn what_was_appended_is_looked_up() {
    let db = Database::open_bytes(items(500, 512)).unwrap();
    let table = db.table("items").unwrap();
    for id in 0..500i64 {
        let letter = (b'a' + (id % 5) as u8) as char;
        let value = table.get(&i64_key(id)).unwrap().unwrap();
        assert_eq!(value.as_bytes(), format!("{letter}-{id:05}").as_bytes());
    }
    assert!(table.get(&i64_key(500)).unwrap().is_none());
    assert!(table.get(&i64_key(-1)).unwrap().is_none());
    assert!(table.contains_key(&i64_key(3)).unwrap());
    assert!(!table.contains_key(&i64_key(700)).unwrap());
    let err = table.get(b"short").err().unwrap();
    assert_eq!(err.kind(), ErrorKind::InvalidArgument);
}

#[test]
fn a_scan_gives_every_row_in_key_order_and_back() {
    let db = Database::open_bytes(items(300, 256)).unwrap();
    let table = db.table("items").unwrap();
    let mut cursor = table.scan(Order::Ascending).unwrap();
    let mut seen = Vec::new();
    while cursor.advance().unwrap() {
        let entry = cursor.current().unwrap();
        seen.push(Int64Encoding::decode(entry.key()).unwrap());
        assert!(!entry.is_overflow());
    }
    assert_eq!(seen, (0..300).collect::<Vec<i64>>());
    let mut cursor = table.scan(Order::Descending).unwrap();
    let mut back = Vec::new();
    while cursor.advance().unwrap() {
        back.push(Int64Encoding::decode(cursor.current().unwrap().key()).unwrap());
    }
    back.reverse();
    assert_eq!(seen, back);
    assert!(cursor.current().is_none());
    assert!(!cursor.advance().unwrap());
}

#[test]
fn ranges_count_what_they_scan() {
    let db = Database::open_bytes(items(400, 256)).unwrap();
    let table = db.table("items").unwrap();
    let (a, b) = (i64_key(100), i64_key(200));
    let cases: Vec<(Bound<&[u8]>, Bound<&[u8]>, i64, i64)> = vec![
        (Bound::Included(&a), Bound::Excluded(&b), 100, 200),
        (Bound::Excluded(&a), Bound::Included(&b), 101, 201),
        (Bound::Unbounded, Bound::Excluded(&a), 0, 100),
        (Bound::Included(&b), Bound::Unbounded, 200, 400),
    ];
    for (lower, upper, from, to) in cases {
        let mut cursor = table.range(lower, upper, Order::Ascending).unwrap();
        let mut want = from;
        while cursor.advance().unwrap() {
            assert_eq!(cursor.current().unwrap().key(), i64_key(want));
            want += 1;
        }
        assert_eq!(want, to);
        assert_eq!(table.count_range(lower, upper).unwrap(), (to - from) as u64);
    }
    assert_eq!(table.count().unwrap(), 400);
    // A range with its ends the wrong way round is refused.
    let err = table
        .range(Bound::Included(&b), Bound::Included(&a), Order::Ascending)
        .err()
        .unwrap();
    assert_eq!(err.kind(), ErrorKind::InvalidArgument);
}

#[test]
fn an_index_leads_to_the_rows_it_was_derived_from() {
    let db = Database::open_bytes(items(250, 512)).unwrap();
    let table = db.table("items").unwrap();
    let by_name = table.index("by_name").unwrap();
    assert!(by_name.is_unique());
    assert_eq!(by_name.get(b"c-00102").unwrap().unwrap().as_bytes(), b"c-00102");
    assert!(by_name.get(b"c-00103").unwrap().is_none());
    assert_eq!(by_name.count().unwrap(), 250);

    let by_letter = table.index("by_letter").unwrap();
    assert!(!by_letter.is_unique());
    // The first row under a key is the one whose primary key sorts first.
    assert_eq!(by_letter.get(b"b").unwrap().unwrap().as_bytes(), b"b-00001");
    let mut cursor = by_letter.lookup(b"d").unwrap();
    let mut id = 3;
    while cursor.advance().unwrap() {
        assert_eq!(cursor.key(), b"d");
        let value = cursor.value().unwrap();
        assert_eq!(value.as_bytes(), format!("d-{id:05}").as_bytes());
        id += 5;
    }
    assert_eq!(id, 253);
    assert_eq!(
        by_letter.count_range(Bound::Included(b"b"), Bound::Excluded(b"d")).unwrap(),
        100
    );
    let mut cursor = by_letter.prefix(b"e", Order::Descending).unwrap();
    assert!(cursor.advance().unwrap());
    assert_eq!(cursor.take_value().unwrap().as_bytes(), b"e-00249");
    assert!(cursor.value().is_none());
    let err = table.index("by_size").err().unwrap();
    assert_eq!(err.kind(), ErrorKind::InvalidArgument);
}

#[test]
fn values_too_large_for_a_leaf_are_read_whole_or_in_parts() {
    let mut builder = DatabaseBuilder::new().page_size(4096).unwrap();
    let table = builder.create_table("assets", SharedEncoding::int64()).unwrap();
    let blob: Vec<u8> = (0..70_000u32).map(|i| (i % 251) as u8).collect();
    builder.append(table, &i64_key(1), &blob).unwrap();
    builder.append(table, &i64_key(2), b"small").unwrap();
    let db = Database::open_bytes(builder.build_to_vec().unwrap()).unwrap();
    let table = db.table("assets").unwrap();
    assert_eq!(table.get(&i64_key(1)).unwrap().unwrap().as_bytes(), &blob[..]);

    let mut reader = table.blob_reader(&i64_key(1)).unwrap().unwrap();
    assert_eq!(reader.len(), 70_000);
    let mut out = Vec::new();
    assert_eq!(reader.copy_to(&mut out, 1000).unwrap(), 70_000);
    assert_eq!(out, blob);
    let mut part = [0u8; 10];
    assert_eq!(reader.read_at(&mut part, 69_995).unwrap(), 5);
    assert_eq!(&part[..5], &blob[69_995..]);
    assert_eq!(reader.read(&mut part).unwrap(), 10);
    assert_eq!(&part[..], &blob[..10]);
    assert_eq!(
        reader.seek(drydb::blob::SeekFrom::End(-3)).unwrap(),
        69_997
    );
    assert_eq!(reader.read(&mut part).unwrap(), 3);
    assert!(table.blob_reader(&i64_key(9)).unwrap().is_none());
    let err = table.blob_reader(&i64_key(2)).err().unwrap();
    assert_eq!(err.kind(), ErrorKind::InvalidArgument);
}

#[test]
fn a_compressed_file_reads_like_a_plain_one() {
    let mut builder = DatabaseBuilder::new()
        .page_size(2048)
        .unwrap()
        .page_filter(SharedFilter::zstd(ZstdFilter::default()));
    let table = builder.create_table("t", SharedEncoding::ascii()).unwrap();
    for i in 0..400 {
        let key = format!("key-{i:04}");
        builder.append(table, key.as_bytes(), b"the same value every time").unwrap();
    }
    let image = builder.build_to_vec().unwrap();
    let db = Database::open_bytes(image).unwrap();
    assert_eq!(db.catalog().filters.len(), 1);
    let table = db.table("t").unwrap();
    assert_eq!(
        table.get(b"key-0123").unwrap().unwrap().as_bytes(),
        b"the same value every time"
    );
    assert_eq!(table.count().unwrap(), 400);
    let report = db.verify(VerifyOptions::default()).unwrap();
    assert!(report.get().is_ok());
}

#[test]
fn eytzinger_digests_answer_the_same() {
    let mut builder = DatabaseBuilder::new()
        .page_size(512)
        .unwrap()
        .eytzinger_digests(true);
    let table = builder.create_table("t", SharedEncoding::int64()).unwrap();
    for id in shuffled(333) {
        builder.append(table, &i64_key(id), &id.to_le_bytes()).unwrap();
    }
    let db = Database::open_bytes(builder.build_to_vec().unwrap()).unwrap();
    let table = db.table("t").unwrap();
    for id in 0..333i64 {
        assert_eq!(
            table.get(&i64_key(id)).unwrap().unwrap().as_bytes(),
            &id.to_le_bytes()
        );
    }
    assert_eq!(
        table.count_range(Bound::Excluded(&i64_key(30)), Bound::Included(&i64_key(40))).unwrap(),
        10
    );
    assert!(db.verify(VerifyOptions::default()).unwrap().get().is_ok());
}

#[test]
fn rows_that_do_not_fit_the_sort_buffer_are_sorted_all_the_same() {
    let mut builder = DatabaseBuilder::new().page_size(1024).unwrap().sort_buffer(1);
    let table = builder.create_table("t", SharedEncoding::int64()).unwrap();
    let value = vec![b'v'; 300];
    for id in shuffled(3000) {
        builder.append(table, &i64_key(id), &value).unwrap();
    }
    let db = Database::open_bytes(builder.build_to_vec().unwrap()).unwrap();
    let table = db.table("t").unwrap();
    let mut cursor = table.scan(Order::Ascending).unwrap();
    let mut want = 0;
    while cursor.advance().unwrap() {
        assert_eq!(cursor.current().unwrap().key(), i64_key(want));
        want += 1;
    }
    assert_eq!(want, 3000);
}

#[test]
fn the_builder_refuses_what_it_cannot_write() {
    let mut builder = DatabaseBuilder::new();
    let table = builder.create_table("t", SharedEncoding::int64()).unwrap();
    assert_eq!(
        builder.create_table("t", SharedEncoding::int64()).err().unwrap().kind(),
        ErrorKind::InvalidArgument
    );
    assert_eq!(
        builder.append(table, b"short", b"").unwrap_err().kind(),
        ErrorKind::InvalidArgument
    );
    builder.append(table, &i64_key(1), b"a").unwrap();
    builder.append(table, &i64_key(1), b"b").unwrap();
    let err = builder.build_to_vec().unwrap_err();
    assert_eq!(err.kind(), ErrorKind::InvalidArgument);

    assert!(DatabaseBuilder::new().page_size(1).is_err());

    // A row without an index key.
    let mut builder = DatabaseBuilder::new();
    let table = builder.create_table("t", SharedEncoding::int64()).unwrap();
    builder
        .add_secondary_index(table, "first", false, SharedEncoding::ascii(), by_first_byte())
        .unwrap();
    builder.append(table, &i64_key(1), b"").unwrap();
    assert!(builder.build_to_vec().is_err());

    // Two rows under one key of a unique index.
    let mut builder = DatabaseBuilder::new();
    let table = builder.create_table("t", SharedEncoding::int64()).unwrap();
    builder
        .add_secondary_index(table, "value", true, SharedEncoding::ascii(), by_value())
        .unwrap();
    builder.append(table, &i64_key(1), b"same").unwrap();
    builder.append(table, &i64_key(2), b"same").unwrap();
    let err = builder.build_to_vec().unwrap_err();
    assert_eq!(err.kind(), ErrorKind::InvalidArgument);
}

#[test]
fn a_build_reports_what_it_wrote() {
    let mut builder = DatabaseBuilder::new().page_size(512).unwrap();
    let table = builder.create_table("t", SharedEncoding::int64()).unwrap();
    builder
        .add_secondary_index(table, "value", true, SharedEncoding::ascii(), by_value())
        .unwrap();
    for id in 0..40i64 {
        builder.append(table, &i64_key(id), format!("{id:03}").as_bytes()).unwrap();
    }
    let target = drydb::builder::target::MemoryTarget::new();
    let (target, report) = builder.build_into(target).unwrap();
    assert_eq!(report.tables.len(), 1);
    assert_eq!(report.tables[0].name, "t");
    assert_eq!(report.tables[0].rows, 40);
    assert_eq!(report.tables[0].indexes[0].name, "value");
    assert_eq!(report.tables[0].indexes[0].entries, 40);
    let bytes = target.into_vec();
    assert_eq!(report.file_size, bytes.len() as u64);
    let db = Database::open_bytes(bytes).unwrap();
    assert_eq!(db.catalog().page_count, report.page_count);
}

#[test]
fn a_cached_lookup_needs_the_pages_to_be_there() {
    let db = Database::open_bytes(items(200, 512)).unwrap();
    let table = db.table("items").unwrap();
    assert!(matches!(
        table.get_cached(&i64_key(7)).unwrap(),
        CachedLookup::NotCached
    ));
    table.get(&i64_key(7)).unwrap().unwrap();
    let found = table.get_cached(&i64_key(7)).unwrap();
    assert!(found.is_resolved());
    assert_eq!(found.value().unwrap().as_bytes(), b"c-00007");
    assert!(db.cached_pages() > 0);
    assert!(db.metrics().page_reads > 0);
}

#[test]
fn memory_stays_inside_the_budget() {
    let image = items(2000, 512);
    let db = OpenOptions::new()
        .memory_budget(64 * 1024)
        .cache_shards(1)
        .directory_chunk_entries(16)
        .open_bytes(image.clone())
        .unwrap();
    let table = db.table("items").unwrap();
    for id in shuffled(2000) {
        assert!(table.get(&i64_key(id)).unwrap().is_some());
        assert!(db.charged_bytes() <= 64 * 1024);
    }
    assert!(db.budget().peak() <= 64 * 1024);
    let report = db.memory_report();
    assert_eq!(report.budget_limit, 64 * 1024);
    let err = OpenOptions::new()
        .memory_budget(100)
        .open_bytes(image)
        .err()
        .unwrap();
    assert_eq!(err.kind(), ErrorKind::InvalidArgument);
}

#[test]
fn a_guard_outlives_its_database() {
    let db = Database::open_bytes(items(100, 512)).unwrap();
    let table = db.table("items").unwrap();
    let guard = table.get(&i64_key(42)).unwrap().unwrap();
    drop(table);
    drop(db);
    assert_eq!(guard.as_bytes(), b"c-00042");
}

#[test]
fn names_come_with_the_memory_they_take() {
    let db = Database::open_bytes(items(10, 512)).unwrap();
    let before = db.charged_bytes();
    let names = db.table_names().unwrap();
    assert_eq!(names.get(), &vec!["items"]);
    assert!(db.charged_bytes() > before);
    drop(names);
    assert_eq!(db.charged_bytes(), before);
    let table = db.table("items").unwrap();
    assert_eq!(table.index_names().unwrap().get(), &vec!["by_name", "by_letter"]);
    assert_eq!(db.table("others").err().unwrap().kind(), ErrorKind::InvalidArgument);
}

#[test]
fn a_built_file_passes_verification() {
    let db = Database::open_bytes(items(1000, 256)).unwrap();
    let report = db.verify(VerifyOptions::default()).unwrap();
    let report = report.get();
    assert!(report.is_ok(), "{:?}", report.problems);
    assert_eq!(report.pages_checked, db.catalog().page_count);
    assert_eq!(report.trees_checked, 3);
    // The table once, and each index walked and then scanned.
    assert_eq!(report.entries_checked, 1000 + 2 * 2000);
}

#[test]
fn verification_with_nothing_to_check_is_refused() {
    let db = Database::open_bytes(items(10, 256)).unwrap();
    let err = db
        .verify(VerifyOptions {
            check_pages: false,
            check_trees: false,
            max_problems: 10,
        })
        .err()
        .unwrap();
    assert_eq!(err.kind(), ErrorKind::InvalidArgument);
    let report = db
        .verify(VerifyOptions {
            check_pages: true,
            check_trees: true,
            max_problems: 0,
        })
        .unwrap();
    assert!(!report.get().is_ok());
    assert!(report.get().truncated);
}

/// Whether reading a damaged page may end in an error of this kind.
fn is_damage(kind: ErrorKind) -> bool {
    matches!(
        kind,
        ErrorKind::CorruptData | ErrorKind::Io | ErrorKind::BudgetExceeded
    )
}

/// Every byte of a small file flipped, one at a time: the file is refused, or every read of it
/// is answered, with an error of the kind that damage has or with a row. Where a pass over the
/// file finds nothing, every read works and no row is missing.
#[test]
fn a_damaged_file_is_answered_with_errors() {
    let image = items(60, 256);
    let mut found = 0;
    for at in 0..image.len() {
        let mut bytes = image.clone();
        bytes[at] ^= 0x41;
        let db = match Database::open_bytes(bytes) {
            Ok(db) => db,
            Err(_) => {
                found += 1;
                continue;
            }
        };
        let mut clean = false;
        match db.verify(VerifyOptions::default()) {
            Ok(report) => {
                clean = report.get().is_ok();
                if !report.get().is_ok() {
                    found += 1;
                    let problem = &report.get().problems[0];
                    assert!(problem.to_text().ends_with(&problem.message));
                }
            }
            Err(_) => found += 1,
        }
        if let Ok(table) = db.table("items") {
            for id in 0..60i64 {
                if let Err(e) = table.get(&i64_key(id)) {
                    assert!(!clean, "byte {at}, key {id}: {}", e.to_text());
                    assert!(is_damage(e.kind()), "byte {at}, key {id}: {}", e.to_text());
                }
            }
            match table.count() {
                Ok(n) => assert!(!clean || n == 60, "byte {at}: {n} rows"),
                Err(e) => {
                    assert!(!clean, "byte {at}: {}", e.to_text());
                    assert!(is_damage(e.kind()), "byte {at}: {}", e.to_text());
                }
            }
        }
    }
    assert!(found > image.len() / 2, "{found} of {}", image.len());
}

/// A cursor keeps the tree it reads from alive and nothing else. The reservation
/// that paid for that tree used to go when the database did, leaving the tree the
/// cursor is still reading from charged to nobody.
#[test]
fn a_cursor_outliving_its_database_keeps_its_tree_charged() {
    // Many tables, so what the catalog and its handles cost is unmistakable next to
    // what one cursor holds.
    let mut builder = DatabaseBuilder::new().page_size(256).unwrap();
    for i in 0..200u32 {
        let table = builder
            .create_table(&format!("t{i}"), SharedEncoding::int64())
            .unwrap();
        builder.append(table, &i64_key(0), b"v").unwrap();
    }
    let db = Database::open_bytes(builder.build_to_vec().unwrap()).unwrap();
    let table = db.table("t0").unwrap();
    let cursor = table.scan(Order::Ascending).unwrap();

    let budget = Arc::clone(cursor.budget());
    let held = budget.in_use();
    assert!(held > 10_000, "the open charged {held} bytes");

    drop(table);
    drop(db);
    let after = budget.in_use();
    assert!(
        after >= held / 2,
        "the database went and took {} of {held} bytes of reservation with it, while \
         the cursor is still reading the tree they paid for",
        held - after
    );
    drop(cursor);
    assert_eq!(budget.in_use(), 0, "everything goes when the cursor does");
}

#[test]
fn values_on_pages_of_their_own_pass_verification() {
    let mut builder = DatabaseBuilder::new().page_size(256).unwrap();
    let table = builder.create_table("t", SharedEncoding::int64()).unwrap();
    builder
        .add_secondary_index(
            table,
            "by_letter",
            false,
            SharedEncoding::ascii(),
            by_first_byte(),
        )
        .unwrap();
    for id in shuffled(40) {
        let value = vec![b'a' + (id % 3) as u8; 10 + 100 * (id % 7) as usize];
        builder.append(table, &i64_key(id), &value).unwrap();
    }
    let db = Database::open_bytes(builder.build_to_vec().unwrap()).unwrap();
    let report = db.verify(VerifyOptions::default()).unwrap();
    assert!(report.get().is_ok(), "{:?}", report.get().problems);
    assert_eq!(report.get().trees_checked, 2);
    assert_eq!(report.get().entries_checked, 40 + 2 * 40);
}

#[test]
fn a_page_size_lowered_after_the_rows_is_too_small_for_them() {
    let mut builder = DatabaseBuilder::new().page_size(4096).unwrap();
    let table = builder.create_table("t", SharedEncoding::ascii()).unwrap();
    builder.append(table, &[b'k'; 500], b"v").unwrap();
    let builder = builder.page_size(256).unwrap();
    let err = builder.build_to_vec().unwrap_err();
    assert_eq!(err.kind(), ErrorKind::ValueTooLarge);
}

#[test]
fn index_keys_that_wait_cost_their_bytes_and_their_bookkeeping() {
    assert_eq!(extra_bytes(&Vec::new()), 24);
    assert_eq!(extra_bytes(&vec![vec![1, 2, 3], Vec::new()]), 24 + 27 + 24);
}

/// The primary index has a name too, and an index may not take it.
#[test]
fn an_index_named_like_the_primary_one_is_refused() {
    let mut builder = DatabaseBuilder::new();
    let table = builder.create_table("items", SharedEncoding::int64()).unwrap();
    let err = builder
        .add_secondary_index(table, "items_pk", false, SharedEncoding::ascii(), by_value())
        .err()
        .unwrap();
    assert_eq!(err.kind(), ErrorKind::InvalidArgument);
    builder
        .add_secondary_index(table, "items_pk2", false, SharedEncoding::ascii(), by_value())
        .unwrap();
}

/// A report never holds more problems than it may, and says when it left some out.
#[test]
fn a_report_holds_no_more_problems_than_asked_for() {
    let image = items(200, 256);
    let mut seen = 0;
    for at in (64..image.len() - 600).step_by(211) {
        let mut bytes = image.clone();
        for b in bytes[at..at + 600].iter_mut() {
            *b ^= 0x5A;
        }
        let Ok(db) = Database::open_bytes(bytes) else {
            continue;
        };
        let found = |max_problems: usize| {
            db.verify(VerifyOptions {
                check_pages: true,
                check_trees: true,
                max_problems,
            })
            .ok()
            .map(|report| (report.get().problems.len(), report.get().truncated))
        };
        if let Some((all, _)) = found(100) {
            assert!(all <= 100);
            if all > 1 {
                seen += 1;
                assert_eq!(found(1), Some((1, true)));
            }
        }
    }
    assert!(seen > 0);
}

/// What a report says is held is held, and what a guard pins stays charged.
#[test]
fn a_memory_report_says_what_is_held() {
    let db = OpenOptions::new()
        .memory_budget(1 << 20)
        .cache_capacity(1 << 16)
        .open_bytes(items(60, 256))
        .unwrap();
    let idle = db.memory_report();
    assert_eq!(idle.budget_limit, 1 << 20);
    assert_eq!(idle.cache_capacity, 1 << 16);
    assert_eq!(idle.cache_resident, 0);
    assert!(idle.charged > 0);
    let table = db.table("items").unwrap();
    let guard = table.get(&i64_key(7)).unwrap().unwrap();
    let busy = db.memory_report();
    assert!(busy.cache_resident > 0);
    assert!(busy.charged > idle.charged);
    assert_eq!(busy.charged, db.charged_bytes());
    assert!(busy.peak_charged >= busy.charged);
    assert_eq!(guard.len(), guard.as_bytes().len());
}

/// A filtered file needs room for one decoded page, the page and the filter, to the byte.
#[test]
fn a_filter_has_to_fit_the_budget_to_the_byte() {
    let limits = Limits {
        max_decoded_page_bytes: 1000,
        ..Limits::default()
    };
    let options = OpenOptions::new().limits(limits).memory_budget(1000 + 192 + 256 + 50);
    assert!(options.check_working_set(256, 50).is_ok());
    let err = options.check_working_set(256, 51).err().unwrap();
    assert_eq!(err.kind(), ErrorKind::InvalidArgument);
}

/// A key of the wrong width is the caller's mistake, wherever it is given.
#[test]
fn a_key_of_the_wrong_width_is_an_invalid_argument() {
    let db = Database::open_bytes(items(20, 256)).unwrap();
    let table = db.table("items").unwrap();
    let kinds = [
        table.get(b"short").err().unwrap().kind(),
        table.contains_key(b"short").err().unwrap().kind(),
        table.get_cached(b"short").err().unwrap().kind(),
    ];
    assert!(kinds.iter().all(|k| *k == ErrorKind::InvalidArgument));
}

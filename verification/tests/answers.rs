use drydb::{
    Bound, CachedLookup, Database, DatabaseBuilder, ErrorKind, FilterRegistry, Int64Encoding,
    OpenOptions, Order, PageFilter, SharedEncoding, VerifyOptions, VerifyReport, ZstdFilter,
};

fn i64_key(v: i64) -> [u8; 8] {
    Int64Encoding::encode(v)
}

fn numbers(n: i64) -> Vec<u8> {
    let mut builder = DatabaseBuilder::new().page_size(256).unwrap();
    let table = builder.create_table("numbers", SharedEncoding::int64()).unwrap();
    for id in 0..n {
        builder.append(table, &i64_key(id), format!("value {id}").as_bytes()).unwrap();
    }
    builder.build_to_vec().unwrap()
}

/// A file whose table has no root page.
fn rootless() -> Vec<u8> {
    let mut image = numbers(3);
    let db = Database::open_bytes(image.clone()).unwrap();
    let at = db.catalog().tables[0].primary.root_field_offset as usize;
    image[at..at + 8].copy_from_slice(&(-1i64).to_le_bytes());
    image
}

/// Where a page of a file starts, as the directory has it.
fn page_start(image: &[u8], ordinal: usize) -> usize {
    let db = Database::open_bytes(image.to_vec()).unwrap();
    let at = db.catalog().directory_position.get() as usize + 8 * ordinal;
    let mut slot = [0u8; 8];
    slot.copy_from_slice(&image[at..at + 8]);
    i64::from_le_bytes(slot) as usize
}

fn swept(image: Vec<u8>, check_trees: bool) -> VerifyReport {
    let db = Database::open_bytes(image).unwrap();
    let report = db
        .verify(VerifyOptions {
            check_pages: true,
            check_trees,
            max_problems: 100,
        })
        .unwrap();
    report.get().clone()
}

/// A tree without a root has nothing in it, and every question about it is answered.
#[test]
fn a_table_without_a_root_page_is_empty() {
    let db = Database::open_bytes(rootless()).unwrap();
    let table = db.table("numbers").unwrap();
    assert!(table.get(&i64_key(1)).unwrap().is_none());
    assert!(!table.contains_key(&i64_key(1)).unwrap());
    assert!(matches!(
        table.get_cached(&i64_key(1)).unwrap(),
        CachedLookup::Missing
    ));
    assert!(table.blob_reader(&i64_key(1)).unwrap().is_none());
    assert_eq!(table.count().unwrap(), 0);
    assert_eq!(
        table
            .count_range(Bound::Included(&i64_key(0)), Bound::Unbounded)
            .unwrap(),
        0
    );
    for order in [Order::Ascending, Order::Descending] {
        let mut cursor = table.scan(order).unwrap();
        assert!(!cursor.advance().unwrap());
    }
}

/// The sweep names the page that cannot be read, and says what is wrong with it.
#[test]
fn a_sweep_names_the_page_that_is_damaged() {
    let mut image = numbers(200);
    let at = page_start(&image, 2);
    image[at..at + 4].copy_from_slice(&3i32.to_le_bytes());
    let report = swept(image, false);
    assert!(!report.is_ok());
    assert_eq!(report.problems.len(), 1);
    assert_eq!(report.problems[0].page, Some(2));
    assert_eq!(
        report.problems[0].to_text(),
        "page 2: page: corrupt data: page length 3 is smaller than the 28 byte prefix (page 2)"
    );
}

/// A problem of a tree is labelled with the table it is in.
#[test]
fn a_problem_says_which_tree_it_is_in() {
    let mut image = numbers(200);
    let at = page_start(&image, 2);
    image[at..at + 4].copy_from_slice(&3i32.to_le_bytes());
    let report = swept(image, true);
    let walked = report
        .problems
        .iter()
        .find(|p| p.message.starts_with("table `numbers` primary key: "))
        .unwrap();
    assert_eq!(walked.page, Some(2));
}

#[test]
fn what_is_refused_is_named() {
    let mut builder = DatabaseBuilder::new();
    builder.create_table("t", SharedEncoding::int64()).unwrap();
    let err = builder.create_table("t", SharedEncoding::ascii()).err().unwrap();
    assert_eq!(err.message(), "table `t` is already declared");
    let err = FilterRegistry::new().resolve("shrink").err().unwrap();
    assert_eq!(err.kind(), ErrorKind::UnknownFilter);
    assert_eq!(err.message(), "page filter `shrink` is not registered");
    let db = Database::open_bytes(numbers(2)).unwrap();
    let err = db.table("numbers").unwrap().get(b"abc").err().unwrap();
    assert_eq!(err.message(), "encoding `i64` needs 8 byte keys, got 3");
    let err = db
        .table("numbers")
        .unwrap()
        .prefix(b"a", Order::Ascending)
        .err()
        .unwrap();
    assert_eq!(err.kind(), ErrorKind::InvalidArgument);
    let mut builder = DatabaseBuilder::new();
    let table = builder.create_table("twice", SharedEncoding::int64()).unwrap();
    builder.append(table, &i64_key(-4), b"a").unwrap();
    builder.append(table, &i64_key(-4), b"b").unwrap();
    let err = builder.build_to_vec().err().unwrap();
    assert_eq!(
        err.message(),
        "table `twice` was given the same primary key twice: -4"
    );
}

/// A frame that does not decode is answered with what the library calls it and the limit.
#[test]
fn a_decoding_failure_says_what_the_limit_was() {
    let f = ZstdFilter::with_level(3);
    let mut encoded = Vec::new();
    f.encode(&[7u8; 5000], &mut encoded).unwrap();
    let err = f.decode(&encoded, 64, &mut Vec::new()).unwrap_err();
    assert_eq!(err.kind(), ErrorKind::CorruptData);
    assert!(err.message().starts_with("zstd decompression failed: "));
    assert!(err.message().ends_with(" (decoded page limit is 64 bytes)"));
}

/// More work for a higher level: the level is handed to the library.
#[test]
fn the_level_of_a_filter_is_the_level_it_encodes_at() {
    let payload: Vec<u8> = (0..40_000u32)
        .map(|i| ((i.wrapping_mul(2_654_435_761) >> 21) % 19) as u8)
        .collect();
    let (mut quick, mut thorough) = (Vec::new(), Vec::new());
    ZstdFilter::with_level(-50).encode(&payload, &mut quick).unwrap();
    ZstdFilter::with_level(19).encode(&payload, &mut thorough).unwrap();
    assert!(thorough.len() < quick.len());
    let mut back = Vec::new();
    ZstdFilter::default().decode(&thorough, payload.len(), &mut back).unwrap();
    assert_eq!(back, payload);
}

/// The buffer of a copy is reserved, whatever size the caller asks for.
#[test]
fn a_copy_reserves_its_buffer() {
    let mut builder = DatabaseBuilder::new();
    let table = builder.create_table("assets", SharedEncoding::int64()).unwrap();
    builder.append(table, &i64_key(1), &[9u8; 20_000]).unwrap();
    let db = OpenOptions::new()
        .memory_budget(1 << 19)
        .open_bytes(builder.build_to_vec().unwrap())
        .unwrap();
    let reader = db.table("assets").unwrap().blob_reader(&i64_key(1)).unwrap().unwrap();
    let small = reader.copy_buffer(0).unwrap();
    assert_eq!((small.get().len(), small.charged_bytes()), (1, 193));
    let held = db.charged_bytes();
    let some = reader.copy_buffer(1000).unwrap();
    assert_eq!((some.get().len(), some.charged_bytes()), (1000, 1192));
    assert_eq!(db.charged_bytes(), held + 1192);
    let err = reader.copy_buffer(usize::MAX).err().unwrap();
    assert_eq!(err.kind(), ErrorKind::BudgetExceeded);
    let info = err.budget_info().unwrap();
    assert_eq!((info.requested, info.limit), ((1 << 20) + 192, 1 << 19));
}

/// A refusal says what was asked for: the page, not the whole file.
#[test]
fn a_lookup_is_refused_for_the_memory_of_a_page() {
    let image = numbers(400);
    let db = OpenOptions::new()
        .memory_budget(64 * 1024)
        .cache_shards(1)
        .directory_chunk_entries(16)
        .open_bytes(image)
        .unwrap();
    let mut taken = Vec::new();
    while let Ok(charge) = db.reserve(256) {
        taken.push(charge);
    }
    while let Ok(charge) = db.reserve(1) {
        taken.push(charge);
    }
    let err = db.table("numbers").unwrap().get(&i64_key(7)).err().unwrap();
    assert_eq!(err.kind(), ErrorKind::BudgetExceeded);
    assert!(err.budget_info().unwrap().requested <= 1024);
    assert!(err.is_retryable());
    drop(taken);
    let value = db.table("numbers").unwrap().get(&i64_key(7)).unwrap().unwrap();
    assert_eq!(value.as_bytes(), b"value 7");
}

/// Roots are kept for their trees, and given up when the memory is wanted for something else.
#[test]
fn kept_roots_are_given_up_for_a_reservation() {
    let limit = 256 * 1024;
    let mut builder = DatabaseBuilder::new().page_size(256).unwrap();
    for i in 0..40u32 {
        let table = builder
            .create_table(&format!("t{i}"), SharedEncoding::int64())
            .unwrap();
        builder.append(table, &i64_key(i as i64), b"v").unwrap();
    }
    let db = OpenOptions::new()
        .memory_budget(limit)
        .cache_capacity(0)
        .cache_shards(1)
        .directory_chunk_entries(16)
        .open_bytes(builder.build_to_vec().unwrap())
        .unwrap();
    let opened = db.charged_bytes();
    for i in 0..40u32 {
        let table = db.table(&format!("t{i}")).unwrap();
        assert!(table.contains_key(&i64_key(i as i64)).unwrap());
    }
    // Nothing is cached, so a second look at every table finds the roots that were kept.
    let reads = db.metrics().page_reads;
    for i in 0..40u32 {
        let table = db.table(&format!("t{i}")).unwrap();
        assert!(matches!(
            table.get_cached(&i64_key(i as i64)).unwrap(),
            CachedLookup::Value(_)
        ));
    }
    assert_eq!(db.metrics().page_reads, reads);
    let held = db.charged_bytes() - opened;
    assert!(held > 40 * 28, "{held} bytes are held");
    // More than is free, and no more than the roots can give.
    let charge = db.reserve(limit - opened - held / 2).unwrap();
    assert_eq!(charge.bytes(), limit - opened - held / 2);
    assert!(db.charged_bytes() <= limit);
    assert!(matches!(
        db.table("t3").unwrap().get_cached(&i64_key(3)).unwrap(),
        CachedLookup::NotCached
    ));
}

/// A report that may hold no problem says that it did not look.
#[test]
fn a_report_of_no_problems_at_all_is_cut_short() {
    let db = Database::open_bytes(numbers(20)).unwrap();
    let report = db
        .verify(VerifyOptions {
            check_pages: true,
            check_trees: true,
            max_problems: 0,
        })
        .unwrap();
    assert!(report.get().problems.is_empty());
    assert!(report.get().truncated);
    assert!(!report.get().is_ok());
}

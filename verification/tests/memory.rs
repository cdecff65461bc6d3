use std::sync::atomic::{AtomicBool, Ordering};
use std::sync::Arc;

use drydb::{
    Bound, Budget, Database, DatabaseBuilder, ErrorKind, Int64Encoding, OpenOptions, Order,
    PageSource, SharedEncoding, SharedSource, VerifyOptions,
};

fn key(v: i64) -> [u8; 8] {
    Int64Encoding::encode(v)
}

fn numbers(n: i64) -> Vec<u8> {
    let mut builder = DatabaseBuilder::new().page_size(256).unwrap();
    let table = builder.create_table("numbers", SharedEncoding::int64()).unwrap();
    for id in 0..n {
        builder.append(table, &key(id), format!("value {id}").as_bytes()).unwrap();
    }
    builder.build_to_vec().unwrap()
}

/// A source that stops working when it is told to.
struct Flaky {
    bytes: Vec<u8>,
    broken: Arc<AtomicBool>,
}

impl PageSource for Flaky {
    fn read_at(&self, buf: &mut [u8], offset: u64) -> Result<usize, std::io::Error> {
        if self.broken.load(Ordering::SeqCst) {
            return Err(std::io::Error::from(std::io::ErrorKind::PermissionDenied));
        }
        let at = (offset as usize).min(self.bytes.len());
        let n = buf.len().min(self.bytes.len() - at);
        buf[..n].copy_from_slice(&self.bytes[at..at + n]);
        Ok(n)
    }

    fn size(&self) -> Result<u64, std::io::Error> {
        Ok(self.bytes.len() as u64)
    }

    fn describe(&self) -> String {
        "flaky".to_string()
    }
}

/// A read that fails says nothing of the page, so it is no finding.
#[test]
fn a_read_that_fails_is_not_reported_as_damage() {
    let broken = Arc::new(AtomicBool::new(false));
    let source = SharedSource {
        inner: Arc::new(Box::new(Flaky {
            bytes: numbers(200),
            broken: Arc::clone(&broken),
        })),
    };
    let db = OpenOptions::new().open_source(source).unwrap();
    broken.store(true, Ordering::SeqCst);
    for (check_pages, check_trees) in [(true, false), (false, true), (true, true)] {
        let err = db
            .verify(VerifyOptions {
                check_pages,
                check_trees,
                max_problems: 100,
            })
            .err()
            .unwrap();
        assert_eq!(err.kind(), ErrorKind::Io);
    }
    let table = db.table("numbers").unwrap();
    assert_eq!(table.get(&key(7)).err().unwrap().kind(), ErrorKind::Io);
    broken.store(false, Ordering::SeqCst);
    let report = db.verify(VerifyOptions::default()).unwrap();
    assert!(report.get().is_ok());
    assert_eq!(table.get(&key(7)).unwrap().unwrap().as_bytes(), b"value 7");
}

/// A database that was opened has reserved its catalog, its handles and its shards.
#[test]
fn an_open_database_is_charged_for_what_it_holds() {
    let db = OpenOptions::new()
        .cache_shards(1)
        .open_bytes(numbers(3))
        .unwrap();
    let table = &db.catalog().tables[0];
    let primary = (table.primary.name.len() + table.primary.key_encoding_id.len()) as u64 + 2 * 192;
    let catalog = 600 + (7 + 192) + primary + 304;
    let copy = (7 + 192) + primary + 192;
    let handles = 3 * copy + 3 * 768;
    let shards = 176 + 192;
    assert_eq!(db.charged_bytes(), catalog + handles + shards);
}

/// A list of names is charged while it is there.
#[test]
fn a_list_of_names_is_charged_until_it_is_dropped() {
    let db = Database::open_bytes(numbers(3)).unwrap();
    let before = db.charged_bytes();
    let names = db.table_names().unwrap();
    assert_eq!(names.get(), &vec!["numbers"]);
    assert_eq!(names.charged_bytes(), 16 + 192);
    assert_eq!(db.charged_bytes(), before + 208);
    drop(names);
    assert_eq!(db.charged_bytes(), before);
    let table = db.table("numbers").unwrap();
    let names = table.index_names().unwrap();
    assert_eq!(names.charged_bytes(), 192);
    let (list, charge) = names.into_inner();
    assert!(list.is_empty());
    assert_eq!(db.charged_bytes(), before + 192);
    drop(charge);
    assert_eq!(db.charged_bytes(), before);
}

/// A report is charged for each problem it holds.
#[test]
fn a_report_is_charged_for_its_problems() {
    let mut image = numbers(200);
    let db = Database::open_bytes(image.clone()).unwrap();
    let clean = db.verify(VerifyOptions::default()).unwrap();
    assert_eq!(clean.charged_bytes(), 0);
    let directory = db.catalog().directory_position.get() as usize;
    for slot in 0..2 {
        let at = directory + 8 * slot;
        image[at..at + 8].copy_from_slice(&(-1i64).to_le_bytes());
    }
    let db = Database::open_bytes(image).unwrap();
    let report = db
        .verify(VerifyOptions {
            check_pages: true,
            check_trees: false,
            max_problems: 100,
        })
        .unwrap();
    let problems = report.get().problems.len() as u64;
    assert!(problems >= 2);
    assert_eq!(report.charged_bytes(), 768 * problems);
    for problem in &report.get().problems {
        assert!(problem.page.unwrap() <= 2);
    }
}

/// A budget starts empty, and takes back what it gave out.
#[test]
fn a_charge_gives_back_what_it_held() {
    let budget = Budget::new(100);
    assert_eq!((budget.in_use(), budget.peak(), budget.limit()), (0, 0, 100));
    let mut charge = budget.try_reserve(70).unwrap();
    charge.shrink(30);
    assert_eq!((charge.bytes(), budget.in_use()), (40, 40));
    charge.shrink(u64::MAX);
    assert_eq!((charge.bytes(), budget.in_use()), (0, 0));
    drop(charge);
    assert_eq!((budget.in_use(), budget.peak()), (0, 70));
}

/// A value goes to a page of its own exactly where it has to.
#[test]
fn a_value_is_on_its_leaf_where_it_fits() {
    let mut builder = DatabaseBuilder::new().page_size(1 << 20).unwrap();
    let table = builder.create_table("assets", SharedEncoding::int64()).unwrap();
    builder.append(table, &key(1), &vec![b'x'; 65535]).unwrap();
    builder.append(table, &key(2), &vec![b'x'; 65534]).unwrap();
    let db = Database::open_bytes(builder.build_to_vec().unwrap()).unwrap();
    let table = db.table("assets").unwrap();
    let reader = table.blob_reader(&key(1)).unwrap().unwrap();
    assert_eq!(reader.len(), 65535);
    let err = table.blob_reader(&key(2)).err().unwrap();
    assert_eq!(err.kind(), ErrorKind::InvalidArgument);
    assert!(table.blob_reader(&key(3)).unwrap().is_none());
    assert_eq!(table.get(&key(1)).unwrap().unwrap().as_bytes(), &vec![b'x'; 65535][..]);
    assert_eq!(table.get(&key(2)).unwrap().unwrap().as_bytes(), &vec![b'x'; 65534][..]);
}

/// A copy of a value is what a lookup gives, whatever is read at once, and leaves nothing
/// reserved.
#[test]
fn a_copy_is_what_a_lookup_gives() {
    let mut builder = DatabaseBuilder::new().page_size(512).unwrap();
    let table = builder.create_table("assets", SharedEncoding::int64()).unwrap();
    let value: Vec<u8> = (0..5000u32).map(|i| (i % 251) as u8).collect();
    builder.append(table, &key(1), &value).unwrap();
    let db = Database::open_bytes(builder.build_to_vec().unwrap()).unwrap();
    let table = db.table("assets").unwrap();
    let found = table.get(&key(1)).unwrap().unwrap().as_bytes().to_vec();
    assert_eq!(found, value);
    let reader = table.blob_reader(&key(1)).unwrap().unwrap();
    let held = db.charged_bytes();
    for chunk in [0, 1, 7, 4096, usize::MAX] {
        let mut out = Vec::new();
        assert_eq!(reader.copy_to(&mut out, chunk).unwrap(), 5000);
        assert_eq!(out, found);
        assert_eq!(db.charged_bytes(), held);
    }
}

/// A count is the number of rows that a range gives, in either order.
#[test]
fn a_count_is_what_a_range_gives() {
    let db = Database::open_bytes(numbers(100)).unwrap();
    let table = db.table("numbers").unwrap();
    let (lo, hi) = (key(10), key(60));
    for (lower, upper, rows) in [
        (Bound::Included(&lo[..]), Bound::Included(&hi[..]), 51),
        (Bound::Excluded(&lo[..]), Bound::Excluded(&hi[..]), 49),
        (Bound::Unbounded, Bound::Excluded(&lo[..]), 10),
        (Bound::Unbounded, Bound::Unbounded, 100),
    ] {
        assert_eq!(table.count_range(lower, upper).unwrap(), rows);
        for order in [Order::Ascending, Order::Descending] {
            let mut cursor = table.range(lower, upper, order).unwrap();
            let mut given = 0;
            while cursor.advance().unwrap() {
                given += 1;
            }
            assert_eq!(given, rows);
        }
    }
}

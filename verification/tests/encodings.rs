use drydb::encoding::DuplicateKeyEncoding;
use drydb::{
    AsciiEncoding, DatabaseBuilder, EncodingRegistry, Error, ErrorKind, Int64Encoding, KeyEncoding,
    OpenOptions, Order, SharedEncoding, UlidEncoding, Uuidv7Encoding,
};
use std::cmp::Ordering;
use std::sync::Arc;

#[test]
fn i64_digest_preserves_order() {
    let e = Int64Encoding;
    let values = [i64::MIN, -2, -1, 0, 1, 2, i64::MAX];
    for w in values.windows(2) {
        let a = Int64Encoding::encode(w[0]);
        let b = Int64Encoding::encode(w[1]);
        assert_eq!(e.compare(&a, &b).unwrap(), Ordering::Less);
        assert!(e.digest(&a).unwrap() < e.digest(&b).unwrap(), "{:?}", w);
    }
}

#[test]
fn i64_digest_round_trips() {
    let e = Int64Encoding;
    let mut out = Vec::new();
    for v in [i64::MIN, -1, 0, 1, i64::MAX, 1234567] {
        let key = Int64Encoding::encode(v);
        e.decode_key_from_digest(e.digest(&key).unwrap(), &mut out)
            .unwrap();
        assert_eq!(out, key);
    }
}

#[test]
fn i64_rejects_wrong_width() {
    let e = Int64Encoding;
    assert!(e.digest(&[0u8; 7]).is_err());
    assert!(e.validate_key(&[0u8; 9]).is_err());
}

#[test]
fn ascii_digest_preserves_order() {
    let e = AsciiEncoding;
    let keys: Vec<&[u8]> = vec![b"", b"a", b"aa", b"ab", b"abcdefgh", b"abcdefghi", b"b"];
    for w in keys.windows(2) {
        assert_eq!(e.compare(w[0], w[1]).unwrap(), Ordering::Less);
        assert!(e.digest(w[0]).unwrap() <= e.digest(w[1]).unwrap());
    }
    // Keys sharing an eight byte prefix collide.
    assert_eq!(
        e.digest(b"abcdefgh").unwrap(),
        e.digest(b"abcdefghi").unwrap()
    );
}

#[test]
fn uuid_fields_compare_unsigned() {
    // The leading fields are unsigned, so 0x7f000000 sorts below 0x80000000.
    let e = Uuidv7Encoding;
    let mut lo = [0u8; 16];
    lo[3] = 0x7f;
    let mut hi = [0u8; 16];
    hi[3] = 0x80;
    assert_eq!(e.compare(&lo, &hi).unwrap(), Ordering::Less);
    assert!(e.digest(&lo).unwrap() < e.digest(&hi).unwrap());
}

#[test]
fn uuid_rfc4122_conversion_round_trips() {
    let rfc = [
        0x01, 0x89, 0x0a, 0x5d, 0xac, 0x96, 0x77, 0x4b, 0xbc, 0xce, 0xb3, 0x02, 0x09, 0x9a, 0x80,
        0x57,
    ];
    let dotnet = Uuidv7Encoding::from_rfc4122(&rfc);
    // The byte order that .NET writes 01890a5d-ac96-774b-bcce-b302099a8057 in.
    assert_eq!(
        dotnet,
        [
            0x5d, 0x0a, 0x89, 0x01, 0x96, 0xac, 0x4b, 0x77, 0xbc, 0xce, 0xb3, 0x02, 0x09, 0x9a,
            0x80, 0x57
        ]
    );
    assert_eq!(Uuidv7Encoding::to_rfc4122(&dotnet), rfc);
}

#[test]
fn duplicate_key_orders_by_source_then_rid() {
    let e = DuplicateKeyEncoding::new(SharedEncoding::ascii());
    let a = DuplicateKeyEncoding::encode(b"k", 0);
    let b = DuplicateKeyEncoding::encode(b"k", 1);
    let c = DuplicateKeyEncoding::encode(b"l", 0);
    assert_eq!(e.compare(&a, &b).unwrap(), Ordering::Less);
    assert_eq!(e.compare(&b, &c).unwrap(), Ordering::Less);
    assert_eq!(e.digest(&a).unwrap(), e.digest(&b).unwrap());
}

/// An encoding under a name of its own, with every key the same.
struct Shadow(&'static str);

impl KeyEncoding for Shadow {
    fn id(&self) -> &str {
        self.0
    }
    fn compare(&self, _: &[u8], _: &[u8]) -> Result<Ordering, Error> {
        Ok(Ordering::Equal)
    }
    fn digest(&self, _: &[u8]) -> Result<u64, Error> {
        Ok(0)
    }
    fn is_digest_exact(&self) -> bool {
        false
    }
    fn accepts_digest(&self, _: &[u8], stored: u64) -> Result<bool, Error> {
        Ok(stored == 0)
    }
    fn decode_key_from_digest(&self, _: u64, _: &mut Vec<u8>) -> Result<(), Error> {
        Err(Error::new(ErrorKind::UnsupportedFormat, "no keys"))
    }
    fn fixed_key_len(&self) -> Option<usize> {
        None
    }
    fn max_rebuilt_key_len(&self) -> Option<usize> {
        None
    }
    fn is_byte_lexicographic(&self) -> bool {
        false
    }
    fn validate_key(&self, _: &[u8]) -> Result<(), Error> {
        Ok(())
    }
    fn format_key(&self, _: &[u8]) -> String {
        String::new()
    }
    fn parse_key(&self, _: &str) -> Result<Vec<u8>, Error> {
        Ok(Vec::new())
    }
}

#[test]
fn registry_rejects_unknown_and_shadowing() {
    let mut r = EncodingRegistry::new();
    assert_eq!(
        r.resolve("nope").err().unwrap().kind(),
        ErrorKind::UnknownEncoding
    );
    assert!(r.resolve("i64").is_ok());
    let shadow = SharedEncoding {
        inner: Arc::new(Box::new(Shadow("i64"))),
    };
    assert!(r.register(shadow).is_err());
}

#[test]
fn a_registered_encoding_resolves_under_its_name() {
    let mut r = EncodingRegistry::new();
    let own = SharedEncoding {
        inner: Arc::new(Box::new(Shadow("own"))),
    };
    r.register(own).unwrap();
    assert_eq!(r.resolve("own").unwrap().inner.id(), "own");
    for id in ["i64", "ascii", "uuidv7", "ulid"] {
        assert_eq!(r.resolve(id).unwrap().inner.id(), id);
    }
}

#[test]
fn keys_are_written_and_read_back_as_text() {
    let key = Int64Encoding::encode(-1234);
    assert_eq!(Int64Encoding.format_key(&key), "-1234");
    assert_eq!(Int64Encoding.parse_key("-1234").unwrap(), key.to_vec());
    assert_eq!(Int64Encoding::decode(&key).unwrap(), -1234);
    assert!(Int64Encoding.parse_key("12x").is_err());

    let text = AsciiEncoding.format_key(b"plain");
    assert_eq!(AsciiEncoding.parse_key(&text).unwrap(), b"plain".to_vec());

    let rfc = [
        0x01, 0x89, 0x0a, 0x5d, 0xac, 0x96, 0x77, 0x4b, 0xbc, 0xce, 0xb3, 0x02, 0x09, 0x9a, 0x80,
        0x57,
    ];
    let uuid = Uuidv7Encoding::from_rfc4122(&rfc);
    let text = Uuidv7Encoding.format_key(&uuid);
    assert_eq!(text, "01890a5d-ac96-774b-bcce-b302099a8057");
    assert_eq!(Uuidv7Encoding.parse_key(&text).unwrap(), uuid.to_vec());

    let text = UlidEncoding.format_key(&rfc);
    assert_eq!(UlidEncoding.parse_key(&text).unwrap(), rfc.to_vec());
}

#[test]
fn a_composite_key_splits_into_what_it_was_made_of() {
    let key = DuplicateKeyEncoding::encode(b"abc", 77);
    assert_eq!(key.len(), 7);
    let (source, rid) = DuplicateKeyEncoding::split(&key).unwrap();
    assert_eq!(source, b"abc");
    assert_eq!(rid, 77);
    assert!(DuplicateKeyEncoding::split(b"abc").is_err());
}

/// Bytes from the greatest down.
struct Downward;

impl KeyEncoding for Downward {
    fn id(&self) -> &str {
        "test.downward"
    }
    fn compare(&self, a: &[u8], b: &[u8]) -> Result<Ordering, Error> {
        Ok(b.cmp(a))
    }
    fn digest(&self, _: &[u8]) -> Result<u64, Error> {
        Ok(0)
    }
    fn is_digest_exact(&self) -> bool {
        false
    }
    fn accepts_digest(&self, _: &[u8], stored: u64) -> Result<bool, Error> {
        Ok(stored == 0)
    }
    fn decode_key_from_digest(&self, _: u64, _: &mut Vec<u8>) -> Result<(), Error> {
        Err(Error::new(ErrorKind::UnsupportedFormat, "no keys"))
    }
    fn fixed_key_len(&self) -> Option<usize> {
        None
    }
    fn max_rebuilt_key_len(&self) -> Option<usize> {
        None
    }
    fn is_byte_lexicographic(&self) -> bool {
        false
    }
    fn validate_key(&self, _: &[u8]) -> Result<(), Error> {
        Ok(())
    }
    fn format_key(&self, _: &[u8]) -> String {
        String::new()
    }
    fn parse_key(&self, _: &str) -> Result<Vec<u8>, Error> {
        Ok(Vec::new())
    }
}

fn downward() -> SharedEncoding {
    SharedEncoding {
        inner: Arc::new(Box::new(Downward)),
    }
}

#[test]
fn a_database_reads_with_the_encoding_registered_for_it() {
    let mut builder = DatabaseBuilder::new().page_size(512).unwrap();
    let table = builder.create_table("t", downward()).unwrap();
    for key in [b"b", b"d", b"a", b"c"] {
        builder.append(table, key, key).unwrap();
    }
    let image = builder.build_to_vec().unwrap();
    let err = OpenOptions::new().open_bytes(image.clone()).err().unwrap();
    assert_eq!(err.kind(), ErrorKind::UnknownEncoding);
    let db = OpenOptions::new()
        .register_encoding(downward())
        .unwrap()
        .open_bytes(image)
        .unwrap();
    let table = db.table("t").unwrap();
    let mut cursor = table.scan(Order::Ascending).unwrap();
    let mut seen = Vec::new();
    while cursor.advance().unwrap() {
        seen.extend(cursor.current().unwrap().key_to_vec());
    }
    assert_eq!(seen, b"dcba");
    assert_eq!(table.get(b"c").unwrap().unwrap().as_bytes(), b"c");
    let shadow = SharedEncoding {
        inner: Arc::new(Box::new(Shadow("ulid"))),
    };
    let err = OpenOptions::new().register_encoding(shadow).err().unwrap();
    assert_eq!(err.kind(), ErrorKind::InvalidArgument);
}

/// What a composite encoding writes, it reads back.
#[test]
fn a_composite_key_is_read_back_from_its_text() {
    let e = DuplicateKeyEncoding::new(SharedEncoding::ascii());
    let key = DuplicateKeyEncoding::encode(b"k", 0);
    assert_eq!(e.format_key(&key), "k-0");
    assert_eq!(e.parse_key("k-0").unwrap(), key);
    let key = DuplicateKeyEncoding::encode(b"a-b", 70_000);
    assert_eq!(e.parse_key(&e.format_key(&key)).unwrap(), key);
    for text in ["k", "k-", "k-x", "k-99999999999999999999"] {
        assert_eq!(e.parse_key(text).err().unwrap().kind(), ErrorKind::InvalidArgument);
    }
}

/// White space around a number is not part of it, whatever kind of white space it is.
#[test]
fn white_space_around_an_integer_is_skipped() {
    let key = Int64Encoding::encode(7).to_vec();
    for text in ["7", " 7", "7\t", "\u{a0}7", "7\u{3000}", "\u{2003}7\u{85}"] {
        assert_eq!(Int64Encoding.parse_key(text).unwrap(), key, "{text:?}");
    }
    for text in ["\u{200b}7", "7\u{feff}", ""] {
        assert!(Int64Encoding.parse_key(text).is_err(), "{text:?}");
    }
}

use drydb::{
    DatabaseBuilder, Error, ErrorKind, FilterRegistry, OpenOptions, PageFilter, SharedEncoding,
    SharedFilter, ZstdFilter, ZSTD_FILTER_ID,
};
use std::sync::Arc;

struct Xor;

impl PageFilter for Xor {
    fn id(&self) -> &str {
        "test.xor"
    }
    fn encode(&self, input: &[u8], out: &mut Vec<u8>) -> Result<(), Error> {
        out.extend(input.iter().map(|b| b ^ 0x5a));
        Ok(())
    }
    fn working_set_bytes(&self) -> u64 {
        0
    }
    fn probe_bytes(&self) -> u64 {
        0
    }
    fn decoded_size_hint(&self, _: &[u8]) -> Option<usize> {
        None
    }
    fn decode(&self, input: &[u8], _limit: usize, out: &mut Vec<u8>) -> Result<(), Error> {
        self.encode(input, out)
    }
}

#[test]
fn unknown_filter_is_rejected() {
    let registry = FilterRegistry::new();
    assert_eq!(
        registry.resolve("nope").err().unwrap().kind(),
        ErrorKind::UnknownFilter
    );
}

#[test]
fn custom_filters_resolve() {
    let mut registry = FilterRegistry::new();
    registry.register(SharedFilter {
        inner: Arc::new(Box::new(Xor)),
    });
    let f = registry.resolve("test.xor").unwrap();
    let mut encoded = Vec::new();
    f.inner.encode(b"hello", &mut encoded).unwrap();
    let mut decoded = Vec::with_capacity(64);
    f.inner.decode(&encoded, 64, &mut decoded).unwrap();
    assert_eq!(decoded, b"hello");
}

#[test]
fn zstd_round_trips() {
    let f = ZstdFilter::default();
    let payload = b"the same sentence over and over. ".repeat(64);
    let mut encoded = Vec::new();
    f.encode(&payload, &mut encoded).unwrap();
    assert!(encoded.len() < payload.len());
    let mut decoded = Vec::with_capacity(payload.len() * 2);
    f.decode(&encoded, payload.len() * 2, &mut decoded).unwrap();
    assert_eq!(decoded, payload);
}

#[test]
fn zstd_refuses_to_exceed_the_decoded_limit() {
    let f = ZstdFilter::default();
    let payload = vec![7u8; 200_000];
    let mut encoded = Vec::new();
    f.encode(&payload, &mut encoded).unwrap();
    let mut decoded = Vec::with_capacity(1024);
    let err = f.decode(&encoded, 1024, &mut decoded).unwrap_err();
    assert_eq!(err.kind(), ErrorKind::CorruptData);
}

#[test]
fn zstd_resolves_from_the_registry() {
    let registry = FilterRegistry::new();
    assert_eq!(
        registry.resolve(ZSTD_FILTER_ID).unwrap().inner.id(),
        ZSTD_FILTER_ID
    );
}

#[test]
fn a_frame_says_how_large_it_will_be() {
    let f = ZstdFilter::with_level(1);
    let payload = b"abc".repeat(500);
    let mut encoded = Vec::new();
    f.encode(&payload, &mut encoded).unwrap();
    assert_eq!(f.decoded_size_hint(&encoded), Some(1500));
    let err = f.decode(b"not a frame", 100, &mut Vec::new()).unwrap_err();
    assert_eq!(err.kind(), ErrorKind::CorruptData);
}

#[test]
fn a_database_reads_through_the_filter_registered_for_it() {
    let xor = SharedFilter {
        inner: Arc::new(Box::new(Xor)),
    };
    let mut builder = DatabaseBuilder::new().page_filter(xor.clone());
    let table = builder.create_table("t", SharedEncoding::ascii()).unwrap();
    builder.append(table, b"key", b"a value to be hidden").unwrap();
    let image = builder.build_to_vec().unwrap();
    assert!(!image.windows(20).any(|w| w == b"a value to be hidden"));
    let err = OpenOptions::new().open_bytes(image.clone()).err().unwrap();
    assert_eq!(err.kind(), ErrorKind::UnknownFilter);
    let db = OpenOptions::new().register_filter(xor).open_bytes(image).unwrap();
    let table = db.table("t").unwrap();
    assert_eq!(
        table.get(b"key").unwrap().unwrap().as_bytes(),
        b"a value to be hidden"
    );
}

/// Asking the zstd filter what it needs costs something until it has measured it once.
#[test]
fn zstd_measures_its_context_once() {
    let filter = ZstdFilter::with_level(1);
    let cost = filter.probe_bytes();
    assert!(cost > 0);
    let working = filter.working_set_bytes();
    assert!(working >= cost);
    assert_eq!(filter.probe_bytes(), 0);
    assert_eq!(filter.clone().probe_bytes(), 0);
    assert_eq!(filter.working_set_bytes(), working);
    assert_eq!(ZstdFilter::with_level(1).probe_bytes(), cost);
}

use drydb::builder::offsets::DirectorySpool;
use drydb::builder::scratch::MemoryScratch;
use drydb::builder::target::MemoryTarget;
use drydb::directory::PageDirectory;
use drydb::metrics::Metrics;
use drydb::{Budget, ErrorKind, FileOffset, MemorySource, PageOrdinal, SharedSource};
use std::sync::Arc;

fn directory_image(offsets: &[i64], base: usize) -> Vec<u8> {
    let mut image = vec![0u8; base];
    for o in offsets {
        image.extend_from_slice(&o.to_le_bytes());
    }
    image
}

fn no_reclaim(_bytes: u64) -> u64 {
    0
}

fn directory(offsets: &[i64], entries_per_chunk: u64, max_chunks: usize) -> PageDirectory {
    let base = 4096usize;
    let image = directory_image(offsets, base);
    let source = SharedSource::memory(MemorySource::new(image));
    PageDirectory::new(
        source,
        FileOffset::new(base as u64),
        offsets.len() as u64,
        entries_per_chunk,
        max_chunks,
        Budget::new(1 << 20),
        Arc::new(Metrics::new()),
    )
}

#[test]
fn resolves_every_ordinal() {
    let offsets: Vec<i64> = (0..100).map(|i| 26 + i * 40).collect();
    let dir = directory(&offsets, 8, 4);
    for (i, expected) in offsets.iter().enumerate() {
        assert_eq!(
            dir.offset_of(PageOrdinal::new(i as u64), &no_reclaim)
                .unwrap()
                .get(),
            *expected as u64
        );
    }
}

#[test]
fn keeps_only_a_bounded_number_of_chunks() {
    let offsets: Vec<i64> = (0..1000).map(|i| 26 + i * 4).collect();
    let dir = directory(&offsets, 8, 4);
    for i in 0..1000u64 {
        dir.offset_of(PageOrdinal::new(i), &no_reclaim).unwrap();
    }
    assert!(
        dir.chunks_held() <= 4,
        "cached {} chunks",
        dir.chunks_held()
    );
}

#[test]
fn rejects_out_of_range_ordinals() {
    let dir = directory(&[26, 60], 8, 4);
    assert!(dir.offset_of(PageOrdinal::new(2), &no_reclaim).is_err());
}

#[test]
fn rejects_offsets_outside_the_page_area() {
    let dir = directory(&[3, 60], 8, 4);
    assert!(
        dir.offset_of(PageOrdinal::new(0), &no_reclaim).is_err(),
        "offset inside the header"
    );
    let dir = directory(&[26, 999_999], 8, 4);
    assert!(
        dir.offset_of(PageOrdinal::new(1), &no_reclaim).is_err(),
        "offset past the directory"
    );
    let dir = directory(&[-5, 60], 8, 4);
    assert!(
        dir.offset_of(PageOrdinal::new(0), &no_reclaim).is_err(),
        "negative offset"
    );
}

#[test]
fn a_directory_without_room_for_a_chunk_says_so() {
    let image = directory_image(&[26, 60], 4096);
    let budget = Budget::new(1);
    let dir = PageDirectory::new(
        SharedSource::memory(MemorySource::new(image)),
        FileOffset::new(4096),
        2,
        8,
        4,
        Arc::clone(&budget),
        Arc::new(Metrics::new()),
    );
    let err = dir.offset_of(PageOrdinal::new(0), &no_reclaim).err().unwrap();
    assert_eq!(err.kind(), ErrorKind::BudgetExceeded);
    assert_eq!(dir.page_count(), 2);
}

fn directory_section(threshold: usize, offsets: &[u64]) -> Vec<u8> {
    let mut spool = DirectorySpool::new(MemoryScratch::new(), threshold);
    for (i, offset) in offsets.iter().enumerate() {
        assert_eq!(spool.push(*offset).unwrap().get(), i as u64);
    }
    assert_eq!(spool.count(), offsets.len() as u64);
    let mut out = MemoryTarget::new();
    spool.write_into(&mut out).unwrap();
    out.into_vec()
}

#[test]
fn a_spilled_directory_is_the_same_section() {
    let offsets: Vec<u64> = (0..1000).map(|i| 40 + 4096 * i).collect();
    let mut expected = Vec::new();
    for offset in &offsets {
        expected.extend_from_slice(&offset.to_le_bytes());
    }
    for threshold in [0, 8, 24, 100, 8000, 1 << 20] {
        assert_eq!(directory_section(threshold, &offsets), expected);
    }
    assert_eq!(directory_section(64, &[]), Vec::<u8>::new());
}

#[test]
fn a_directory_longer_than_a_chunk_is_streamed_whole() {
    let offsets: Vec<u64> = (0..70_000).map(|i| 7 * i).collect();
    let section = directory_section(4096, &offsets);
    assert_eq!(section.len(), 560_000);
    assert_eq!(section[8 * 69_999..], (7u64 * 69_999).to_le_bytes());
    assert_eq!(section[8 * 32_768..8 * 32_769], (7u64 * 32_768).to_le_bytes());
}

use drydb::builder::scratch::{MemoryScratch, Scratch};
use drydb::builder::spool::{RecordSpool, SortedRecords, MERGE_FAN_IN};
use drydb::{Error, ErrorKind, Int64Encoding, SharedEncoding};
use std::cell::Cell;
use std::cmp::Ordering;
use std::rc::Rc;

fn collect<S: Scratch>(mut sorted: SortedRecords<S>) -> Vec<(Vec<u8>, Vec<u8>, u64)> {
    let mut out = Vec::new();
    while let Some(r) = sorted.next_record().unwrap() {
        out.push((r.key, r.value, r.seq));
    }
    out
}

#[test]
fn sorts_in_memory() {
    let mut spool = RecordSpool::new(SharedEncoding::ascii(), MemoryScratch::new(), 1 << 20);
    for key in ["delta", "alpha", "charlie", "bravo"] {
        spool.push(key.as_bytes(), key.as_bytes()).unwrap();
    }
    let out = collect(spool.into_sorted().unwrap());
    let keys: Vec<_> = out
        .iter()
        .map(|(k, _, _)| String::from_utf8(k.clone()).unwrap())
        .collect();
    assert_eq!(keys, ["alpha", "bravo", "charlie", "delta"]);
}

#[test]
fn equal_keys_keep_append_order() {
    let mut spool = RecordSpool::new(SharedEncoding::ascii(), MemoryScratch::new(), 1 << 20);
    for i in 0..5u8 {
        spool.push(b"same", &[i]).unwrap();
    }
    let out = collect(spool.into_sorted().unwrap());
    assert_eq!(
        out.iter().map(|(_, v, _)| v[0]).collect::<Vec<_>>(),
        vec![0, 1, 2, 3, 4]
    );
}

/// Runs beyond the fan-in are reduced by extra passes rather than all opened at once.
#[test]
fn many_runs_are_reduced_before_the_final_merge() {
    let mut spool = RecordSpool::new(SharedEncoding::int64(), MemoryScratch::new(), 64 * 1024);
    // One record per run: each value on its own exceeds the buffer.
    let value = vec![0x5Au8; 96 * 1024];
    let count = MERGE_FAN_IN * 3 + 5;
    for i in 0..count as i64 {
        spool
            .push(&Int64Encoding::encode(count as i64 - i), &value)
            .unwrap();
    }
    let sorted = spool.into_sorted().unwrap();
    match &sorted {
        SortedRecords::Merged { merger, .. } => assert!(
            merger.runs() <= MERGE_FAN_IN,
            "the final merge opened {} runs",
            merger.runs()
        ),
        SortedRecords::Memory { .. } => panic!("the input should have spilled"),
    }
    let out = collect(sorted);
    assert_eq!(out.len(), count);
    let keys: Vec<i64> = out
        .iter()
        .map(|(k, _, _)| Int64Encoding::decode(k).unwrap())
        .collect();
    let mut expected: Vec<i64> = (1..=count as i64).collect();
    expected.sort_unstable();
    assert_eq!(keys, expected);
}

#[test]
fn spills_and_merges_many_runs() {
    // A tiny budget forces a spill every few records.
    let mut spool = RecordSpool::new(SharedEncoding::int64(), MemoryScratch::new(), 64 * 1024);
    let mut expected: Vec<i64> = Vec::new();
    let mut value = 0u64;
    for _ in 0..20_000 {
        // A cheap deterministic shuffle.
        value = value
            .wrapping_mul(6364136223846793005)
            .wrapping_add(1442695040888963407);
        let key = (value >> 33) as i64 - (1 << 30);
        expected.push(key);
        spool
            .push(&Int64Encoding::encode(key), &key.to_le_bytes())
            .unwrap();
    }
    expected.sort_unstable();
    let out = collect(spool.into_sorted().unwrap());
    assert_eq!(out.len(), expected.len());
    let keys: Vec<i64> = out
        .iter()
        .map(|(k, _, _)| Int64Encoding::decode(k).unwrap())
        .collect();
    assert_eq!(keys, expected);
}

#[test]
fn merged_runs_keep_append_order_for_equal_keys() {
    let mut spool = RecordSpool::new(SharedEncoding::ascii(), MemoryScratch::new(), 64 * 1024);
    // Payload per record chosen so the 64 KiB buffer spills many times over: a
    // smaller one would sort in memory and leave the merge untested.
    let padding = [b'p'; 200];
    for i in 0..4000u32 {
        let key = format!("key{:03}", i % 50);
        let mut value = i.to_le_bytes().to_vec();
        value.extend_from_slice(&padding);
        spool.push(key.as_bytes(), &value).unwrap();
    }
    let sorted = spool.into_sorted().unwrap();
    assert!(
        matches!(sorted, SortedRecords::Merged { .. }),
        "this test is about the merge; the input has to spill"
    );
    let out = collect(sorted);
    assert_eq!(out.len(), 4000);
    let mut previous: Option<(Vec<u8>, u32)> = None;
    for (key, value, _) in out {
        let value = u32::from_le_bytes(value[..4].try_into().unwrap());
        if let Some((prev_key, prev_value)) = &previous {
            match prev_key.as_slice().cmp(key.as_slice()) {
                Ordering::Less => {}
                Ordering::Equal => assert!(
                    *prev_value < value,
                    "equal keys must stay in append order: {prev_value} then {value}"
                ),
                Ordering::Greater => panic!("merge produced keys out of order"),
            }
        }
        previous = Some((key, value));
    }
}

#[test]
fn rejects_keys_the_encoding_cannot_handle() {
    let mut spool = RecordSpool::new(SharedEncoding::int64(), MemoryScratch::new(), 1 << 20);
    assert!(spool.push(b"short", b"v").is_err());
}

/// Scratch files that cannot be written to while the disk is full.
struct Fillable {
    bytes: Vec<u8>,
    full: Rc<Cell<bool>>,
    /// Whether something can still be appended to a file that has something in it.
    started: bool,
}

impl Scratch for Fillable {
    fn fresh(&self) -> Self {
        Fillable {
            bytes: Vec::new(),
            full: Rc::clone(&self.full),
            started: self.started,
        }
    }
    fn append(&mut self, bytes: &[u8]) -> Result<(), Error> {
        if self.full.get() && !(self.started && !self.bytes.is_empty()) {
            return Err(Error::new(ErrorKind::Io, "no space left"));
        }
        self.bytes.extend_from_slice(bytes);
        Ok(())
    }
    fn read_back(&self, buf: &mut [u8], offset: u64) -> Result<(), Error> {
        let at = offset as usize;
        buf.copy_from_slice(&self.bytes[at..at + buf.len()]);
        Ok(())
    }
}

/// A record that could not be written cannot be taken back: the write sorts the buffer, so
/// the record is no longer where it was put. The spool stops instead.
#[test]
fn a_spool_that_could_not_write_a_row_does_not_go_on() {
    let full = Rc::new(Cell::new(true));
    let seed = Fillable {
        bytes: Vec::new(),
        full: Rc::clone(&full),
        started: false,
    };
    // The keys go in out of order, so the write sorts them and the record is not the last
    // one.
    let mut spool = RecordSpool::new(SharedEncoding::int64(), seed, 1);
    let value = vec![0x5Au8; 32 * 1024];
    spool.push(&Int64Encoding::encode(2), &value).unwrap();
    let refused = spool.push(&Int64Encoding::encode(1), &value);
    assert_eq!(refused.unwrap_err().kind(), ErrorKind::Io);

    // Everything after that says so, rather than building a file whose contents nobody can
    // account for.
    full.set(false);
    assert!(spool.push(&Int64Encoding::encode(3), &value).is_err());
    assert!(spool.into_sorted().is_err());
}

/// The same when the failure comes after the rows have been written: they are in the file,
/// so there is nothing to take back, and the build stops rather than shipping a row whose
/// append was refused.
#[test]
fn a_spool_that_failed_after_writing_does_not_go_on() {
    let full = Rc::new(Cell::new(false));
    let seed = Fillable {
        bytes: Vec::new(),
        full: Rc::clone(&full),
        started: true,
    };
    let mut spool = RecordSpool::new(SharedEncoding::int64(), seed, 1);
    let value = vec![0x5Au8; 64 * 1024 + 1];
    for i in 0..15i64 {
        spool.push(&Int64Encoding::encode(i), &value).unwrap();
    }

    // No other file can be made from here on. The rows go on into the one there is, until a
    // merge needs another.
    full.set(true);
    let mut refused = false;
    for i in 15..300i64 {
        if spool.push(&Int64Encoding::encode(i), &value).is_err() {
            refused = true;
            break;
        }
    }
    full.set(false);
    assert!(refused, "a merge needed a file");
    assert!(spool.into_sorted().is_err(), "a build cannot go on from here");
}

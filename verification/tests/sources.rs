use drydb::io::{read_exact_at, read_up_to_at};
use drydb::{ErrorKind, MemorySource, PageSource};

/// A source that returns one byte at a time, to exercise the short-read loop.
struct Dribble(Vec<u8>);

impl PageSource for Dribble {
    fn read_at(&self, buf: &mut [u8], offset: u64) -> Result<usize, std::io::Error> {
        let offset = offset as usize;
        if offset >= self.0.len() || buf.is_empty() {
            return Ok(0);
        }
        buf[0] = self.0[offset];
        Ok(1)
    }

    fn size(&self) -> Result<u64, std::io::Error> {
        Ok(self.0.len() as u64)
    }

    fn describe(&self) -> String {
        "dribble".to_string()
    }
}

/// A source that is interrupted before every read it makes, and then fails.
struct Interrupted {
    bytes: Vec<u8>,
    turn: std::sync::atomic::AtomicU64,
}

impl PageSource for Interrupted {
    fn read_at(&self, buf: &mut [u8], offset: u64) -> Result<usize, std::io::Error> {
        let turn = self.turn.fetch_add(1, std::sync::atomic::Ordering::SeqCst);
        if turn % 2 == 0 {
            return Err(std::io::Error::from(std::io::ErrorKind::Interrupted));
        }
        let offset = offset as usize;
        if offset >= self.bytes.len() {
            return Err(std::io::Error::from(std::io::ErrorKind::PermissionDenied));
        }
        buf[0] = self.bytes[offset];
        Ok(1)
    }

    fn size(&self) -> Result<u64, std::io::Error> {
        Ok(self.bytes.len() as u64)
    }

    fn describe(&self) -> String {
        "interrupted".to_string()
    }
}

#[test]
fn read_exact_at_handles_short_reads() {
    let src = Dribble(b"0123456789".to_vec());
    let mut buf = [0u8; 4];
    read_exact_at(&src, &mut buf, 3).unwrap();
    assert_eq!(&buf, b"3456");
}

#[test]
fn read_exact_at_reports_eof() {
    let src = Dribble(b"0123".to_vec());
    let mut buf = [0u8; 8];
    let err = read_exact_at(&src, &mut buf, 0).unwrap_err();
    assert_eq!(err.kind(), ErrorKind::Io);
}

#[test]
fn read_up_to_at_stops_at_eof() {
    let src = MemorySource::new(b"abcdef".to_vec());
    let mut buf = [0u8; 10];
    assert_eq!(read_up_to_at(&src, &mut buf, 2).unwrap(), 4);
    assert_eq!(&buf[..4], b"cdef");
}

#[test]
fn memory_source_reads_past_end_as_eof() {
    let src = MemorySource::new(b"abc".to_vec());
    let mut buf = [0u8; 4];
    assert_eq!(src.read_at(&mut buf, 99).unwrap(), 0);
}

#[test]
fn an_interrupted_read_is_tried_again_and_another_failure_is_reported() {
    let src = Interrupted {
        bytes: b"abcd".to_vec(),
        turn: std::sync::atomic::AtomicU64::new(0),
    };
    let mut buf = [0u8; 4];
    read_exact_at(&src, &mut buf, 0).unwrap();
    assert_eq!(&buf, b"abcd");
    let err = read_exact_at(&src, &mut buf, 2).unwrap_err();
    assert_eq!(err.kind(), ErrorKind::Io);
}

/// What is past the end of the file leaves the rest of the buffer as it was.
#[test]
fn a_short_read_leaves_the_rest_of_the_buffer_alone() {
    let src = MemorySource::new(b"0123456789".to_vec());
    let mut buf = [0xEEu8; 6];
    assert_eq!(read_up_to_at(&src, &mut buf, 7).unwrap(), 3);
    assert_eq!(&buf, b"789\xEE\xEE\xEE");
    assert_eq!(src.read_at(&mut buf, 20).unwrap(), 0);
    assert_eq!(&buf, b"789\xEE\xEE\xEE");
}

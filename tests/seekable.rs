use multi_readers::{BytesReader, MultiSeekReaders, SeekFrom, StreamError};

fn parts() -> Vec<Vec<u8>> {
    vec![b"abc".to_vec(), b"de".to_vec(), b"fghij".to_vec()]
}

fn joined(parts: &[Vec<u8>]) -> MultiSeekReaders<BytesReader<'_>> {
    MultiSeekReaders::new(parts.iter().map(|p| BytesReader::new(p)).collect()).unwrap()
}

fn read_to_end(reader: &mut MultiSeekReaders<BytesReader<'_>>, size: usize) -> Vec<u8> {
    let mut out = Vec::new();
    let mut buf = vec![0u8; size];
    loop {
        let n = reader.read(&mut buf).unwrap();
        out.extend_from_slice(&buf[..n]);
        if n == 0 {
            return out;
        }
    }
}

#[test]
fn reads_everything_in_order() {
    let parts = parts();
    for size in 1..12 {
        let mut reader = joined(&parts);
        assert_eq!(read_to_end(&mut reader, size), b"abcdefghij".to_vec());
    }
}

#[test]
fn seek_start_then_read() {
    let parts = parts();
    let mut reader = joined(&parts);
    assert_eq!(reader.len(), 10);
    assert_eq!(reader.multi_stream_len(), 10);
    assert_eq!(reader.seek(SeekFrom::Start(4)).unwrap(), 4);
    assert_eq!(reader.seek(SeekFrom::Current(0)).unwrap(), 4);
    assert_eq!(read_to_end(&mut reader, 4), b"efghij".to_vec());
}

#[test]
fn seek_end_then_read() {
    let parts = parts();
    let mut reader = joined(&parts);
    assert_eq!(reader.seek(SeekFrom::End(-3)).unwrap(), 7);
    assert_eq!(reader.seek(SeekFrom::Current(0)).unwrap(), 7);
    assert_eq!(reader.pos(), 7);
    assert_eq!(read_to_end(&mut reader, 2), b"hij".to_vec());
}

#[test]
fn seek_current_moves_relative() {
    let parts = parts();
    let mut reader = joined(&parts);
    let mut buf = [0u8; 4];
    assert_eq!(reader.read(&mut buf).unwrap(), 4);
    assert_eq!(reader.seek(SeekFrom::Current(0)).unwrap(), 4);
    assert_eq!(reader.seek(SeekFrom::Current(-2)).unwrap(), 2);
    assert_eq!(reader.read(&mut buf).unwrap(), 4);
    assert_eq!(&buf, b"cdef");
    assert_eq!(reader.seek(SeekFrom::Current(3)).unwrap(), 9);
    assert_eq!(read_to_end(&mut reader, 3), b"j".to_vec());
}

#[test]
fn forward_seek_from_current_stops_at_end() {
    let parts = parts();
    let mut reader = joined(&parts);
    reader.seek(SeekFrom::Start(8)).unwrap();
    assert_eq!(reader.seek(SeekFrom::Current(100)).unwrap(), 10);
    assert!(reader.is_end());
    assert_eq!(reader.seek(SeekFrom::Current(i64::MAX)).unwrap(), 10);
}

#[test]
fn seek_bounds() {
    let parts = parts();
    let mut reader = joined(&parts);
    reader.seek(SeekFrom::Start(5)).unwrap();
    assert!(matches!(reader.seek(SeekFrom::Start(11)), Err(StreamError::InvalidSeek)));
    assert!(matches!(reader.seek(SeekFrom::End(1)), Err(StreamError::InvalidSeek)));
    assert!(matches!(reader.seek(SeekFrom::End(-11)), Err(StreamError::InvalidSeek)));
    assert!(matches!(reader.seek(SeekFrom::Current(-6)), Err(StreamError::InvalidSeek)));
    assert!(matches!(reader.seek(SeekFrom::Current(i64::MIN)), Err(StreamError::InvalidSeek)));
    assert_eq!(reader.pos(), 5);
    assert_eq!(reader.seek(SeekFrom::Start(10)).unwrap(), 10);
    assert!(reader.is_end());
    let mut buf = [0u8; 4];
    assert_eq!(reader.read(&mut buf).unwrap(), 0);
    assert_eq!(reader.seek(SeekFrom::End(0)).unwrap(), 10);
    assert_eq!(reader.read(&mut buf).unwrap(), 0);
    assert_eq!(reader.seek(SeekFrom::Start(0)).unwrap(), 0);
    assert_eq!(read_to_end(&mut reader, 4), b"abcdefghij".to_vec());
}

#[test]
fn seek_lands_in_the_right_resource() {
    let parts = parts();
    let mut reader = joined(&parts);
    let mut buf = [0u8; 1];
    for (at, byte) in b"abcdefghij".iter().enumerate() {
        assert_eq!(reader.seek(SeekFrom::Start(at as u64)).unwrap(), at as u64);
        assert_eq!(reader.read(&mut buf).unwrap(), 1);
        assert_eq!(buf[0], *byte);
    }
}

#[test]
fn boundary_exact_read_moves_on() {
    let parts = parts();
    let mut reader = joined(&parts);
    let mut buf = [0u8; 3];
    assert_eq!(reader.read(&mut buf).unwrap(), 3);
    assert_eq!(&buf, b"abc");
    assert_eq!(reader.pos(), 3);
    assert_eq!(reader.read(&mut buf).unwrap(), 3);
    assert_eq!(&buf, b"def");
}

#[test]
fn empty_resources_are_dropped() {
    let parts = vec![b"abc".to_vec(), Vec::new(), b"de".to_vec()];
    let mut reader = joined(&parts);
    assert_eq!(reader.len(), 5);
    assert_eq!(read_to_end(&mut reader, 2), b"abcde".to_vec());
    assert_eq!(reader.seek(SeekFrom::Start(3)).unwrap(), 3);
    assert_eq!(read_to_end(&mut reader, 8), b"de".to_vec());

    let empty: [u8; 0] = [];
    reader.push(BytesReader::new(&empty)).unwrap();
    assert_eq!(reader.len(), 5);
}

#[test]
fn push_extends_the_stream() {
    let first = b"abc".to_vec();
    let second = b"xy".to_vec();
    let mut reader = MultiSeekReaders::new(vec![BytesReader::new(&first)]).unwrap();
    assert!(!reader.is_empty());
    reader.push(BytesReader::new(&second)).unwrap();
    assert_eq!(reader.len(), 5);
    assert_eq!(read_to_end(&mut reader, 4), b"abcxy".to_vec());
}

#[test]
fn empty_list_is_refused() {
    let none: Vec<BytesReader> = Vec::new();
    assert!(matches!(MultiSeekReaders::new(none), Err(StreamError::EmptyConstruction)));
}

#[test]
fn only_empty_resources_make_an_empty_stream() {
    let parts = vec![Vec::new(), Vec::new()];
    let mut reader = joined(&parts);
    assert!(reader.is_empty());
    assert_eq!(reader.len(), 0);
    assert!(reader.is_end());
    let mut buf = [0u8; 2];
    assert_eq!(reader.read(&mut buf).unwrap(), 0);
    assert_eq!(reader.seek(SeekFrom::Start(0)).unwrap(), 0);
}

/// Holds "abcd" but delivers only "ab" on its first read.
struct ShortFirst {
    reads: std::rc::Rc<std::cell::Cell<usize>>,
    at: usize,
}

impl multi_readers::ByteStream for ShortFirst {}

impl multi_readers::ReadSource for ShortFirst {
    fn read(&mut self, buf: &mut [u8]) -> std::io::Result<usize> {
        let content = b"abcd";
        let limit = if self.reads.get() == 0 { 2 } else { 4 };
        self.reads.set(self.reads.get() + 1);
        let n = (limit - self.at.min(limit)).min(buf.len());
        buf[..n].copy_from_slice(&content[self.at..self.at + n]);
        self.at += n;
        Ok(n)
    }
}

impl multi_readers::SeekSource for ShortFirst {
    fn seek_start(&mut self, offset: u64) -> std::io::Result<u64> {
        self.at = offset as usize;
        Ok(offset)
    }

    fn seek_end(&mut self) -> std::io::Result<u64> {
        self.at = 4;
        Ok(4)
    }
}

#[test]
fn short_read_moves_to_the_next_resource() {
    let reads = std::rc::Rc::new(std::cell::Cell::new(0));
    let others = std::rc::Rc::new(std::cell::Cell::new(0));
    let mut reader = MultiSeekReaders::new(vec![
        ShortFirst { reads: reads.clone(), at: 0 },
        ShortFirst { reads: others.clone(), at: 0 },
    ])
    .unwrap();
    assert_eq!(reader.len(), 8);
    let mut buf = [0u8; 8];
    assert_eq!(reader.read(&mut buf).unwrap(), 4);
    assert_eq!(&buf[..4], b"abab");
    assert_eq!(reads.get(), 1);
    assert_eq!(others.get(), 1);
    assert_eq!(reader.read(&mut buf).unwrap(), 0);
    assert_eq!(reads.get(), 1);
    assert_eq!(others.get(), 1);
}

/// Fails every read; seeking works unless `seek_fails` is set.
struct Faulty {
    seek_fails: bool,
}

impl multi_readers::ByteStream for Faulty {}

impl multi_readers::ReadSource for Faulty {
    fn read(&mut self, _buf: &mut [u8]) -> std::io::Result<usize> {
        Err(std::io::Error::new(std::io::ErrorKind::Other, "read failed"))
    }
}

impl multi_readers::SeekSource for Faulty {
    fn seek_start(&mut self, offset: u64) -> std::io::Result<u64> {
        if self.seek_fails {
            Err(std::io::Error::new(std::io::ErrorKind::Other, "seek failed"))
        } else {
            Ok(offset)
        }
    }

    fn seek_end(&mut self) -> std::io::Result<u64> {
        if self.seek_fails {
            Err(std::io::Error::new(std::io::ErrorKind::Other, "seek failed"))
        } else {
            Ok(3)
        }
    }
}

#[test]
fn resource_failures_are_passed_on() {
    match MultiSeekReaders::new(vec![Faulty { seek_fails: true }]) {
        Err(StreamError::Underlying(e)) => assert_eq!(e.to_string(), "seek failed"),
        _ => panic!("expected the probe to fail"),
    }
    let mut reader = MultiSeekReaders::new(vec![Faulty { seek_fails: false }]).unwrap();
    assert_eq!(reader.len(), 3);
    let mut buf = [0u8; 2];
    match reader.read(&mut buf) {
        Err(StreamError::Underlying(e)) => assert_eq!(e.to_string(), "read failed"),
        _ => panic!("expected the read to fail"),
    }
    assert_eq!(reader.pos(), 0);
    assert_eq!(reader.seek(SeekFrom::Start(2)).unwrap(), 2);
    assert!(matches!(reader.seek(SeekFrom::Start(4)), Err(StreamError::InvalidSeek)));
}

#[test]
fn zero_length_read_changes_nothing() {
    let parts = parts();
    let mut reader = joined(&parts);
    reader.seek(SeekFrom::Start(3)).unwrap();
    let mut empty: [u8; 0] = [];
    assert_eq!(reader.read(&mut empty).unwrap(), 0);
    assert_eq!(reader.pos(), 3);
}

#[test]
fn rejected_seek_keeps_the_position() {
    let parts = parts();
    let mut reader = joined(&parts);
    reader.seek(SeekFrom::Start(6)).unwrap();
    assert!(matches!(reader.seek(SeekFrom::End(-20)), Err(StreamError::InvalidSeek)));
    assert_eq!(reader.pos(), 6);
    assert_eq!(read_to_end(&mut reader, 3), b"ghij".to_vec());
}

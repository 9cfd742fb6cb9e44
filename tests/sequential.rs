use multi_readers::{BytesReader, ByteStream, MultiReaders, Producer, ReadSource, VecSource};
use std::cell::Cell;
use std::rc::Rc;

fn read_all<R: ReadSource, P: Producer<R>>(reader: &mut MultiReaders<R, P>, size: usize) -> Vec<u8> {
    let mut out = Vec::new();
    let mut buf = vec![0u8; size];
    loop {
        let n = reader.read(&mut buf).unwrap();
        out.extend_from_slice(&buf[..n]);
        if n == 0 {
            return out;
        }
    }
}

#[test]
fn hello_world_with_three_byte_buffer() {
    let a = b"Hello ".to_vec();
    let b = b"world".to_vec();
    let mut reader = MultiReaders::from_vec(vec![BytesReader::new(&a), BytesReader::new(&b)]);
    assert_eq!(read_all(&mut reader, 3), b"Hello world".to_vec());
}

#[test]
fn concatenation_for_every_buffer_size() {
    let parts: Vec<Vec<u8>> = vec![b"ab".to_vec(), b"".to_vec(), b"cdefg".to_vec(), b"h".to_vec()];
    for size in 1..12 {
        let readers: Vec<BytesReader> = parts.iter().map(|p| BytesReader::new(p)).collect();
        let mut reader = MultiReaders::from_vec(readers);
        assert_eq!(read_all(&mut reader, size), b"abcdefgh".to_vec());
    }
}

#[test]
fn one_read_spans_several_resources() {
    let a = b"ab".to_vec();
    let b = b"cd".to_vec();
    let c = b"ef".to_vec();
    let mut reader = MultiReaders::from_vec(vec![
        BytesReader::new(&a),
        BytesReader::new(&b),
        BytesReader::new(&c),
    ]);
    let mut buf = [0u8; 5];
    assert_eq!(reader.read(&mut buf).unwrap(), 5);
    assert_eq!(&buf, b"abcde");
    assert_eq!(reader.read(&mut buf).unwrap(), 1);
    assert_eq!(buf[0], b'f');
}

#[test]
fn empty_source_reports_end_at_once() {
    let mut reader: MultiReaders<BytesReader, VecSource<BytesReader>> = MultiReaders::new();
    let mut buf = [7u8; 4];
    assert_eq!(reader.read(&mut buf).unwrap(), 0);
    assert_eq!(buf, [7u8; 4]);
}

#[test]
fn push_appends_after_the_others() {
    let a = b"one".to_vec();
    let b = b"two".to_vec();
    let mut reader = MultiReaders::new();
    reader.push(BytesReader::new(&a));
    reader.push(BytesReader::new(&b));
    assert_eq!(read_all(&mut reader, 2), b"onetwo".to_vec());
}

struct Counting {
    pulled: Rc<Cell<usize>>,
    inner: VecSource<BytesReader<'static>>,
}

impl Producer<BytesReader<'static>> for Counting {
    fn next_reader(&mut self) -> Option<BytesReader<'static>> {
        self.pulled.set(self.pulled.get() + 1);
        self.inner.next_reader()
    }
}

#[test]
fn zero_length_request_pulls_nothing() {
    let pulled = Rc::new(Cell::new(0));
    let source = Counting {
        pulled: pulled.clone(),
        inner: VecSource::new(vec![BytesReader::new(b"xyz")]),
    };
    let mut reader = MultiReaders::from_iter(source);
    let mut empty: [u8; 0] = [];
    assert_eq!(reader.read(&mut empty).unwrap(), 0);
    assert_eq!(pulled.get(), 0);
    let mut buf = [0u8; 3];
    assert_eq!(reader.read(&mut buf).unwrap(), 3);
    assert_eq!(&buf, b"xyz");
    assert_eq!(pulled.get(), 1);
}

/// Returns "ab" on its first call and "cd" on any later one.
struct Stub {
    calls: Rc<Cell<usize>>,
}

impl ByteStream for Stub {}

impl ReadSource for Stub {
    fn read(&mut self, buf: &mut [u8]) -> std::io::Result<usize> {
        let chunk: &[u8] = if self.calls.get() == 0 { b"ab" } else { b"cd" };
        self.calls.set(self.calls.get() + 1);
        let n = chunk.len().min(buf.len());
        buf[..n].copy_from_slice(&chunk[..n]);
        Ok(n)
    }
}

#[test]
fn short_read_ends_the_resource() {
    let calls = Rc::new(Cell::new(0));
    let mut reader = MultiReaders::from_vec(vec![Stub { calls: calls.clone() }]);
    let mut buf = [0u8; 4];
    assert_eq!(reader.read(&mut buf).unwrap(), 2);
    assert_eq!(&buf[..2], b"ab");
    assert_eq!(reader.read(&mut buf).unwrap(), 0);
    assert_eq!(calls.get(), 1);
}

struct Failing;

impl ByteStream for Failing {}

impl ReadSource for Failing {
    fn read(&mut self, _buf: &mut [u8]) -> std::io::Result<usize> {
        Err(std::io::Error::new(std::io::ErrorKind::Other, "broken"))
    }
}

#[test]
fn failure_is_passed_on() {
    let mut reader = MultiReaders::from_vec(vec![Failing]);
    let mut buf = [0u8; 4];
    let err = reader.read(&mut buf).unwrap_err();
    assert_eq!(err.kind(), std::io::ErrorKind::Other);
    assert_eq!(err.to_string(), "broken");
}

#[test]
fn flatten_skips_absent_resources() {
    let hello = b"hello".to_vec();
    let world = b"world".to_vec();
    let readers = MultiReaders::from_vec(vec![
        Some(BytesReader::new(&hello)),
        None,
        Some(BytesReader::new(&world)),
        None,
    ]);
    let mut reader = readers.flatten();
    assert_eq!(read_all(&mut reader, 4), b"helloworld".to_vec());
}

#[test]
fn flatten_producer_hands_out_present_values() {
    let mut source = multi_readers::Flatten::new(VecSource::new(vec![None, Some(1u8), None, None, Some(2u8)]));
    assert_eq!(source.next_reader(), Some(1));
    assert_eq!(source.next_reader(), Some(2));
    assert_eq!(source.next_reader(), None);
    assert_eq!(source.next_reader(), None);
}

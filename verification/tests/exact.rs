use crlf_reader::reader::tally;
use crlf_reader::{ByteSource, MemorySource, MyBufReader, ReadError};

/// Hands out what it holds, then reports a fault.
struct Breaking {
    data: Vec<u8>,
    pos: usize,
}

impl ByteSource for Breaking {
    type Fault = u32;

    fn read(&mut self, buf: &mut [u8]) -> Result<usize, u32> {
        if self.pos == self.data.len() {
            return Err(104);
        }
        let count = buf.len().min(self.data.len() - self.pos);
        buf[..count].copy_from_slice(&self.data[self.pos..self.pos + count]);
        self.pos += count;
        Ok(count)
    }
}

fn memory(data: &[u8], chunk: usize, capacity: usize) -> MyBufReader<MemorySource> {
    MyBufReader::with_capacity(capacity, MemorySource::new(data, chunk))
}

#[test]
fn read_exact_from_the_buffer_alone() {
    let mut reader = memory(b"VALUE 5\r\nvalue\r\nEND\r\n", 100, 32);
    let n = reader.read_line().unwrap().len();
    assert_eq!(n, 9);
    reader.consume(n);
    let mut out = [0u8; 5];
    assert_eq!(reader.read_exact(&mut out), Ok(()));
    assert_eq!(&out, b"value");
    // The bytes that were handed out are released, the others stay.
    assert_eq!(reader.buffer(), b"\r\nEND\r\n");
}

#[test]
fn read_exact_from_buffer_and_source() {
    // The first read brings nine bytes for the line and three more.
    let mut reader = memory(b"VALUE 8\r\n12345678\r\nEND\r\n", 12, 32);
    let n = reader.read_line().unwrap().len();
    reader.consume(n);
    assert_eq!(reader.buffer(), b"123");
    let mut out = [0u8; 8];
    assert_eq!(reader.read_exact(&mut out), Ok(()));
    assert_eq!(&out, b"12345678");
    // What came straight from the source went past the buffer.
    assert_eq!(reader.buffer(), b"");
    assert_eq!(reader.read_line().unwrap(), b"\r\n");
    reader.consume(2);
    assert_eq!(reader.read_line().unwrap(), b"END\r\n");
}

#[test]
fn read_exact_from_the_source_alone() {
    let mut reader = memory(b"abcdefgh", 3, 4);
    let mut out = [0u8; 6];
    assert_eq!(reader.read_exact(&mut out), Ok(()));
    assert_eq!(&out, b"abcdef");
    assert_eq!(reader.buffer(), b"");
    let mut rest = [0u8; 2];
    assert_eq!(reader.read_exact(&mut rest), Ok(()));
    assert_eq!(&rest, b"gh");
}

#[test]
fn read_exact_of_nothing() {
    let mut reader = memory(b"OK\r\n", 16, 16);
    let mut out = [0u8; 0];
    assert_eq!(reader.read_exact(&mut out), Ok(()));
    assert_eq!(reader.read_line().unwrap(), b"OK\r\n");
    assert_eq!(reader.read_exact(&mut out), Ok(()));
    assert_eq!(reader.buffer(), b"OK\r\n");
}

#[test]
fn read_exact_larger_than_the_buffer() {
    let mut reader = memory(b"0123456789", 4, 2);
    let mut out = [0u8; 10];
    assert_eq!(reader.read_exact(&mut out), Ok(()));
    assert_eq!(&out, b"0123456789");
}

#[test]
fn read_exact_runs_short() {
    let mut reader = memory(b"OK\r\nabc", 16, 16);
    let n = reader.read_line().unwrap().len();
    reader.consume(n);
    let mut out = [b'.'; 5];
    assert_eq!(reader.read_exact(&mut out), Err(ReadError::ShortRead { requested: 5, delivered: 3 }));
    assert_eq!(&out[..3], b"abc");
    // The bytes are gone from the buffer.
    assert_eq!(reader.buffer(), b"");
}

#[test]
fn read_exact_runs_short_with_nothing() {
    let mut reader = memory(b"", 16, 16);
    let mut out = [0u8; 1];
    assert_eq!(reader.read_exact(&mut out), Err(ReadError::ShortRead { requested: 1, delivered: 0 }));
}

#[test]
fn read_exact_hands_on_a_fault() {
    let source = Breaking { data: b"OK\r\nab".to_vec(), pos: 0 };
    let mut reader = MyBufReader::with_capacity(16, source);
    let n = reader.read_line().unwrap().len();
    reader.consume(n);
    let mut out = [b'.'; 4];
    assert_eq!(reader.read_exact(&mut out), Err(ReadError::SourceError(104)));
    assert_eq!(&out[..2], b"ab");
    assert_eq!(reader.buffer(), b"");
}

#[test]
fn read_exact_ignores_terminators() {
    let mut reader = memory(b"a\r\nb\r\nc\r\n", 16, 16);
    assert_eq!(reader.read_line().unwrap(), b"a\r\n");
    let mut out = [0u8; 5];
    assert_eq!(reader.read_exact(&mut out), Ok(()));
    assert_eq!(&out, b"a\r\nb\r");
    assert_eq!(reader.buffer(), b"\nc\r\n");
    assert_eq!(reader.read_line().unwrap(), b"\nc\r\n");
}

#[test]
fn tally_adds_what_came() {
    assert_eq!(tally::<u32>(10, 4, Ok(3)), Ok(7));
    assert_eq!(tally::<u32>(10, 4, Ok(6)), Ok(10));
    assert_eq!(tally::<u32>(10, 0, Ok(1)), Ok(1));
}

#[test]
fn tally_cuts_a_count_beyond_what_was_wanted() {
    assert_eq!(tally::<u32>(10, 4, Ok(7)), Ok(10));
    assert_eq!(tally::<u32>(10, 4, Ok(usize::MAX)), Ok(10));
}

#[test]
fn tally_takes_no_bytes_for_the_end_of_data() {
    assert_eq!(tally::<u32>(10, 4, Ok(0)), Err(ReadError::ShortRead { requested: 10, delivered: 4 }));
    assert_eq!(tally::<u32>(0, 0, Ok(0)), Err(ReadError::ShortRead { requested: 0, delivered: 0 }));
}

#[test]
fn tally_hands_on_a_fault() {
    assert_eq!(tally(10, 4, Err(104u32)), Err(ReadError::SourceError(104u32)));
}

use crlf_reader::{ByteSource, MemorySource, MyBufReader, ReadError};

/// Hands out one prepared chunk per read; when none is left it runs dry, or
/// reports a fault where one was asked for.
struct Scripted {
    chunks: Vec<Vec<u8>>,
    next: usize,
    fault: Option<&'static str>,
    reads: usize,
}

impl Scripted {
    fn new(chunks: &[&[u8]]) -> Scripted {
        Scripted { chunks: chunks.iter().map(|c| c.to_vec()).collect(), next: 0, fault: None, reads: 0 }
    }

    fn failing(chunks: &[&[u8]], fault: &'static str) -> Scripted {
        Scripted { fault: Some(fault), ..Scripted::new(chunks) }
    }
}

impl ByteSource for Scripted {
    type Fault = &'static str;

    fn read(&mut self, buf: &mut [u8]) -> Result<usize, &'static str> {
        self.reads += 1;
        if self.next == self.chunks.len() {
            return match self.fault {
                Some(fault) => Err(fault),
                None => Ok(0),
            };
        }
        let chunk = &self.chunks[self.next];
        assert!(chunk.len() <= buf.len(), "the test's chunk does not fit the region");
        buf[..chunk.len()].copy_from_slice(chunk);
        self.next += 1;
        Ok(chunk.len())
    }
}

/// Claims to have read more than the region holds.
struct Boastful;

impl ByteSource for Boastful {
    type Fault = ();

    fn read(&mut self, buf: &mut [u8]) -> Result<usize, ()> {
        for byte in buf.iter_mut() {
            *byte = b'x';
        }
        Ok(buf.len() + 10)
    }
}

fn memory(data: &[u8], chunk: usize, capacity: usize) -> MyBufReader<MemorySource> {
    MyBufReader::with_capacity(capacity, MemorySource::new(data, chunk))
}

#[test]
fn new_reader_is_empty() {
    let reader = memory(b"OK\r\n", 4, 16);
    assert_eq!(reader.capacity(), 16);
    assert_eq!(reader.buffer(), b"");
}

#[test]
fn example_ok_then_extra() {
    let mut reader = memory(b"OK\r\nEXTRA", 16, 16);
    let line = reader.read_line().unwrap().to_vec();
    assert_eq!(line, b"OK\r\n");
    assert_eq!(line.len(), 4);
    assert_eq!(reader.buffer(), b"OK\r\nEXTRA");
    reader.consume(4);
    assert_eq!(reader.buffer(), b"EXTRA");
    assert_eq!(reader.buffer().len(), 5);
    // Nothing more comes: the rest is a line without end.
    assert_eq!(reader.read_line(), Err(ReadError::UnterminatedLine { buffered: 5 }));
    assert_eq!(reader.buffer(), b"EXTRA");
    // Until a terminator arrives.
    reader.get_mut().feed(b"\r\n");
    assert_eq!(reader.read_line().unwrap(), b"EXTRA\r\n");
}

#[test]
fn line_is_kept_until_consumed() {
    let mut reader = memory(b"OK\r\nEXTRA\r\n", 16, 16);
    assert_eq!(reader.read_line().unwrap(), b"OK\r\n");
    assert_eq!(reader.read_line().unwrap(), b"OK\r\n");
    reader.consume(4);
    assert_eq!(reader.read_line().unwrap(), b"EXTRA\r\n");
}

#[test]
fn buffered_line_needs_no_read() {
    let mut reader = MyBufReader::with_capacity(16, Scripted::new(&[b"OK\r\nEX"]));
    assert_eq!(reader.read_line().unwrap(), b"OK\r\n");
    assert_eq!(reader.get_mut().reads, 1);
    assert_eq!(reader.read_line().unwrap(), b"OK\r\n");
    assert_eq!(reader.get_mut().reads, 1);
}

#[test]
fn consume_reduces_filled_by_the_line() {
    let mut reader = memory(b"STORED\r\nEND\r\nrest", 100, 32);
    let n = reader.read_line().unwrap().len();
    assert_eq!(n, 8);
    let before = reader.buffer().len();
    assert_eq!(before, 17);
    reader.consume(n);
    assert_eq!(reader.buffer().len(), before - n);
    assert_eq!(reader.buffer(), b"END\r\nrest");
    assert_eq!(reader.capacity(), 32);
    // The next line starts behind the first one.
    assert_eq!(reader.read_line().unwrap(), b"END\r\n");
}

#[test]
fn consume_is_capped() {
    let mut reader = memory(b"OK\r\nEXTRA", 16, 16);
    assert_eq!(reader.read_line().unwrap(), b"OK\r\n");
    reader.consume(1000);
    assert_eq!(reader.buffer(), b"");
    reader.consume(1);
    assert_eq!(reader.buffer(), b"");
    assert_eq!(reader.capacity(), 16);
}

#[test]
fn consume_nothing_changes_nothing() {
    let mut reader = memory(b"OK\r\nEXTRA", 16, 16);
    assert_eq!(reader.read_line().unwrap(), b"OK\r\n");
    reader.consume(0);
    assert_eq!(reader.buffer(), b"OK\r\nEXTRA");
}

#[test]
fn consume_part_of_a_line() {
    let mut reader = memory(b"OK\r\nEXTRA", 16, 16);
    assert_eq!(reader.read_line().unwrap(), b"OK\r\n");
    reader.consume(2);
    assert_eq!(reader.buffer(), b"\r\nEXTRA");
    assert_eq!(reader.read_line().unwrap(), b"\r\n");
}

#[test]
fn no_residue_after_compaction() {
    let mut reader = memory(b"first line\r\n2\r\nthird\r\n", 5, 12);
    let mut lines: Vec<Vec<u8>> = Vec::new();
    for _ in 0..3 {
        let line = reader.read_line().unwrap().to_vec();
        reader.consume(line.len());
        lines.push(line);
    }
    assert_eq!(lines, vec![b"first line\r\n".to_vec(), b"2\r\n".to_vec(), b"third\r\n".to_vec()]);
    assert_eq!(reader.buffer(), b"");
    assert_eq!(reader.read_line(), Err(ReadError::UnterminatedLine { buffered: 0 }));
}

fn round_trip(lines: &[&[u8]], chunk: usize, capacity: usize) {
    let mut stream: Vec<u8> = Vec::new();
    for line in lines {
        stream.extend_from_slice(line);
    }
    let mut reader = memory(&stream, chunk, capacity);
    for line in lines {
        let read = reader.read_line().unwrap().to_vec();
        assert_eq!(&read[..], *line);
        reader.consume(read.len());
    }
    assert_eq!(reader.buffer(), b"");
}

#[test]
fn lines_come_back_as_written() {
    let lines: [&[u8]; 5] = [b"VALUE gpl 0 5\r\n", b"value\r\n", b"END\r\n", b"\r\n", b"a\rb\nc\r\n"];
    for chunk in 1..=40 {
        round_trip(&lines, chunk, 15);
        round_trip(&lines, chunk, 64);
    }
}

#[test]
fn line_as_long_as_the_buffer_is_read() {
    // Six bytes and the terminator: eight in all.
    let mut reader = memory(b"123456\r\n", 3, 8);
    assert_eq!(reader.read_line().unwrap(), b"123456\r\n");
    reader.consume(8);
    assert_eq!(reader.buffer(), b"");
}

#[test]
fn line_one_byte_longer_than_the_buffer_is_refused() {
    let mut reader = memory(b"1234567\r\n", 3, 8);
    assert_eq!(reader.read_line(), Err(ReadError::LineTooLong { capacity: 8, buffered: 8 }));
    // What was received is still there.
    assert_eq!(reader.buffer(), b"1234567\r");
    // And the answer stays the same, without another read.
    assert_eq!(reader.read_line(), Err(ReadError::LineTooLong { capacity: 8, buffered: 8 }));
    // Room made by hand lets the caller go on.
    reader.consume(7);
    assert_eq!(reader.read_line().unwrap(), b"\r\n");
}

#[test]
fn reader_without_room_refuses_every_line() {
    let mut reader = MyBufReader::with_capacity(0, Scripted::new(&[]));
    assert_eq!(reader.read_line(), Err(ReadError::LineTooLong { capacity: 0, buffered: 0 }));
    assert_eq!(reader.get_mut().reads, 0);
}

#[test]
fn terminator_split_over_two_reads() {
    let mut reader = MyBufReader::with_capacity(16, Scripted::new(&[b"OK\r", b"\nEXTRA"]));
    assert_eq!(reader.read_line().unwrap(), b"OK\r\n");
    assert_eq!(reader.get_mut().reads, 2);
    reader.consume(4);
    assert_eq!(reader.buffer(), b"EXTRA");
}

#[test]
fn terminator_split_byte_by_byte() {
    let mut reader = memory(b"OK\r\nEXTRA\r\n", 1, 16);
    assert_eq!(reader.read_line().unwrap(), b"OK\r\n");
    assert_eq!(reader.buffer(), b"OK\r\n");
    reader.consume(4);
    assert_eq!(reader.read_line().unwrap(), b"EXTRA\r\n");
}

#[test]
fn carriage_return_left_from_before_ends_a_line() {
    // The carriage return stays buffered behind a released line, its line
    // feed comes with the next read.
    let mut reader = MyBufReader::with_capacity(16, Scripted::new(&[b"OK\r\n\r", b"\n"]));
    assert_eq!(reader.read_line().unwrap(), b"OK\r\n");
    reader.consume(4);
    assert_eq!(reader.buffer(), b"\r");
    assert_eq!(reader.read_line().unwrap(), b"\r\n");
}

#[test]
fn end_of_data_in_a_line_is_an_error() {
    let mut reader = MyBufReader::with_capacity(16, Scripted::new(&[b"EXT", b"RA"]));
    assert_eq!(reader.read_line(), Err(ReadError::UnterminatedLine { buffered: 5 }));
    assert_eq!(reader.buffer(), b"EXTRA");
    assert_eq!(reader.get_mut().reads, 3);
}

#[test]
fn end_of_data_at_once_is_an_error() {
    let mut reader = MyBufReader::with_capacity(16, Scripted::new(&[]));
    assert_eq!(reader.read_line(), Err(ReadError::UnterminatedLine { buffered: 0 }));
}

#[test]
fn fault_of_the_source_is_handed_on() {
    let mut reader = MyBufReader::with_capacity(16, Scripted::failing(&[b"EXT"], "reset"));
    assert_eq!(reader.read_line(), Err(ReadError::SourceError("reset")));
    // What came before the fault is kept.
    assert_eq!(reader.buffer(), b"EXT");
    assert_eq!(reader.get_mut().reads, 2);
}

#[test]
fn count_beyond_the_room_is_cut() {
    let mut reader = MyBufReader::with_capacity(4, Boastful);
    assert_eq!(reader.read_line(), Err(ReadError::LineTooLong { capacity: 4, buffered: 4 }));
    assert_eq!(reader.buffer(), b"xxxx");
    let mut out = [0u8; 6];
    assert_eq!(reader.read_exact(&mut out), Ok(()));
    assert_eq!(&out, b"xxxxxx");
}

#[test]
fn absorb_cuts_a_count_beyond_the_room() {
    let mut reader = MyBufReader::with_capacity(4, Scripted::new(&[b"ab"]));
    let outcome = reader.fetch();
    assert_eq!(outcome, Ok(2));
    assert_eq!(reader.absorb(Ok(100)), Ok(None));
    assert_eq!(reader.buffer(), b"ab\0\0");
    assert_eq!(reader.capacity(), 4);
    // With no room left nothing is taken in.
    assert_eq!(reader.absorb(Ok(1)), Ok(None));
    assert_eq!(reader.buffer(), b"ab\0\0");
}

#[test]
fn fetch_hands_on_what_the_source_says() {
    let mut reader = MyBufReader::with_capacity(4, Boastful);
    assert_eq!(reader.fetch(), Ok(14));
    assert_eq!(reader.buffer(), b"");
}

#[test]
fn get_mut_reaches_the_source() {
    let mut reader = memory(b"", 16, 16);
    reader.get_mut().feed(b"OK\r\n");
    assert_eq!(reader.buffer(), b"");
    assert_eq!(reader.read_line().unwrap(), b"OK\r\n");
}

#[test]
fn fetch_and_absorb_step_by_step() {
    let mut reader = MyBufReader::with_capacity(16, Scripted::failing(&[b"OK", b"\r", b"\nEX"], "reset"));
    let outcome = reader.fetch();
    assert_eq!(outcome, Ok(2));
    assert_eq!(reader.buffer(), b"");
    assert_eq!(reader.absorb(outcome), Ok(None));
    assert_eq!(reader.buffer(), b"OK");
    let outcome = reader.fetch();
    assert_eq!(reader.absorb(outcome), Ok(None));
    assert_eq!(reader.buffer(), b"OK\r");
    let outcome = reader.fetch();
    assert_eq!(outcome, Ok(3));
    assert_eq!(reader.absorb(outcome), Ok(Some(4)));
    assert_eq!(reader.buffer(), b"OK\r\nEX");
    reader.consume(4);
    let outcome = reader.fetch();
    assert_eq!(outcome, Err("reset"));
    assert_eq!(reader.absorb(outcome), Err(ReadError::SourceError("reset")));
    assert_eq!(reader.buffer(), b"EX");
}

#[test]
fn absorb_takes_no_bytes_for_the_end_of_data() {
    let mut reader = MyBufReader::with_capacity(16, Scripted::new(&[b"EX"]));
    let outcome = reader.fetch();
    assert_eq!(reader.absorb(outcome), Ok(None));
    let outcome = reader.fetch();
    assert_eq!(outcome, Ok(0));
    assert_eq!(reader.absorb(outcome), Err(ReadError::UnterminatedLine { buffered: 2 }));
    assert_eq!(reader.buffer(), b"EX");
}

fn answer_of(data: &[u8], chunk: usize, capacity: usize) -> Result<Vec<u8>, ReadError<std::convert::Infallible>> {
    let mut reader = memory(data, chunk, capacity);
    reader.read_line().map(|line| line.to_vec())
}

#[test]
fn cut_of_the_pieces_does_not_change_the_answer() {
    let cases: [(&[u8], usize); 6] = [
        (b"OK\r\nEXTRA", 16),
        (b"123456\r\n", 8),
        (b"1234567\r\n", 8),
        (b"EXTRA", 16),
        (b"EXTRA\r", 16),
        (b"", 16),
    ];
    for (data, capacity) in cases {
        let whole = answer_of(data, 100, capacity);
        for chunk in 1..=12 {
            assert_eq!(answer_of(data, chunk, capacity), whole);
        }
    }
    assert_eq!(answer_of(b"OK\r\nEXTRA", 1, 16), Ok(b"OK\r\n".to_vec()));
    assert_eq!(answer_of(b"123456\r\n", 5, 8), Ok(b"123456\r\n".to_vec()));
    assert_eq!(answer_of(b"1234567\r\n", 5, 8), Err(ReadError::LineTooLong { capacity: 8, buffered: 8 }));
    assert_eq!(answer_of(b"EXTRA", 2, 16), Err(ReadError::UnterminatedLine { buffered: 5 }));
    assert_eq!(answer_of(b"EXTRA\r", 2, 16), Err(ReadError::UnterminatedLine { buffered: 6 }));
    assert_eq!(answer_of(b"", 2, 16), Err(ReadError::UnterminatedLine { buffered: 0 }));
}

#[test]
fn nothing_is_buffered_after_the_last_line() {
    let lines: [&[u8]; 3] = [b"STORED\r\n", b"\r\n", b"END\r\n"];
    for chunk in 1..=20 {
        let mut reader = memory(b"STORED\r\n\r\nEND\r\n", chunk, 8);
        for line in lines {
            let read = reader.read_line().unwrap().to_vec();
            assert_eq!(&read[..], line);
            reader.consume(read.len());
        }
        assert_eq!(reader.buffer().len(), 0);
    }
}

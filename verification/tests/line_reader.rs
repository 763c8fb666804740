//! Lines from a byte stream.

use hashline::line_reader::{LineEvent, LineReader};

/// A reader over a text, which comes in chunks.
struct Source<'a> {
    reader: LineReader,
    bytes: &'a [u8],
    chunk: usize,
}

/// A line that was refused, with the number of bytes seen.
#[derive(Debug)]
enum LineError {
    TooLong(usize),
}

impl<'a> Source<'a> {
    fn next_line(&mut self) -> Result<Option<String>, LineError> {
        loop {
            match self.reader.poll() {
                LineEvent::Line(line) => return Ok(Some(line)),
                LineEvent::TooLong(len) => return Err(LineError::TooLong(len)),
                LineEvent::End => return Ok(None),
                LineEvent::NeedMore => {
                    if self.bytes.is_empty() {
                        self.reader.end();
                    } else {
                        let n = self.chunk.min(self.bytes.len());
                        self.reader.feed(&self.bytes[..n]);
                        self.bytes = &self.bytes[n..];
                    }
                }
            }
        }
    }
}

fn make_reader(input: &str, max_len: usize) -> Source<'_> {
    Source { reader: LineReader::new(max_len), bytes: input.as_bytes(), chunk: 8192 }
}

#[test]
fn line_reader_basic() {
    let mut r = make_reader("hello\nworld\n", 1024);
    assert_eq!(r.next_line().unwrap().unwrap(), "hello");
    assert_eq!(r.next_line().unwrap().unwrap(), "world");
    assert!(r.next_line().unwrap().is_none());
}

#[test]
fn line_reader_no_trailing_newline() {
    let mut r = make_reader("hello\nworld", 1024);
    assert_eq!(r.next_line().unwrap().unwrap(), "hello");
    assert_eq!(r.next_line().unwrap().unwrap(), "world");
    assert!(r.next_line().unwrap().is_none());
}

#[test]
fn line_reader_empty_input() {
    let mut r = make_reader("", 1024);
    assert!(r.next_line().unwrap().is_none());
}

#[test]
fn line_reader_blank_lines() {
    let mut r = make_reader("\n\n\n", 1024);
    assert_eq!(r.next_line().unwrap().unwrap(), "");
    assert_eq!(r.next_line().unwrap().unwrap(), "");
    assert_eq!(r.next_line().unwrap().unwrap(), "");
    assert!(r.next_line().unwrap().is_none());
}

#[test]
fn line_reader_crlf() {
    let mut r = make_reader("hello\r\nworld\r\n", 1024);
    assert_eq!(r.next_line().unwrap().unwrap(), "hello");
    assert_eq!(r.next_line().unwrap().unwrap(), "world");
}

#[test]
fn line_reader_unicode() {
    let mut r = make_reader("héllo\n世界\n", 1024);
    assert_eq!(r.next_line().unwrap().unwrap(), "héllo");
    assert_eq!(r.next_line().unwrap().unwrap(), "世界");
}

#[test]
fn line_reader_rejects_oversized_line() {
    let long_line = "x".repeat(200);
    let input = format!("{}\nshort\n", long_line);
    let mut r = make_reader(&input, 100);
    match r.next_line().unwrap_err() {
        LineError::TooLong(len) => assert_eq!(len, 200),
    }
    assert_eq!(r.next_line().unwrap().unwrap(), "short");
}

#[test]
fn line_reader_oversized_no_newline_then_eof() {
    let long_line = "x".repeat(200);
    let mut r = make_reader(&long_line, 100);
    match r.next_line().unwrap_err() {
        LineError::TooLong(len) => assert!(len >= 200),
    }
    assert!(r.next_line().unwrap().is_none());
}

#[test]
fn line_reader_oversized_then_recover_multiple() {
    let input = format!(
        "{}\n{}\n{}\nvalid\n",
        "x".repeat(50),
        "x".repeat(50),
        "x".repeat(50)
    );
    let mut r = make_reader(&input, 20);
    for _ in 0..3 {
        assert!(matches!(r.next_line(), Err(LineError::TooLong(_))));
    }
    assert_eq!(r.next_line().unwrap().unwrap(), "valid");
}

#[test]
fn line_reader_large_but_under_limit() {
    let line = "x".repeat(100);
    let input = format!("{}\n", line);
    let mut r = make_reader(&input, 100);
    assert_eq!(r.next_line().unwrap().unwrap(), line);
}

#[test]
fn line_reader_just_over_limit() {
    let line = "x".repeat(101);
    let input = format!("{}\n", line);
    let mut r = make_reader(&input, 100);
    assert!(matches!(r.next_line(), Err(LineError::TooLong(_))));
}

#[test]
fn line_reader_multiple_reads_needed() {
    let mut input = String::new();
    for i in 0..100 {
        input.push_str(&format!("line{}\n", i));
    }
    let mut r = make_reader(&input, 1024);
    for i in 0..100 {
        assert_eq!(r.next_line().unwrap().unwrap(), format!("line{}", i));
    }
    assert!(r.next_line().unwrap().is_none());
}

#[test]
fn line_reader_partial_line_then_more_data() {
    let input = "hello world this is a long line that spans multiple buffer reads\nnext\n";
    let mut r = make_reader(input, 1024);
    let line = r.next_line().unwrap().unwrap();
    assert_eq!(line, "hello world this is a long line that spans multiple buffer reads");
    assert_eq!(r.next_line().unwrap().unwrap(), "next");
}

#[test]
fn line_reader_does_not_depend_on_chunks() {
    let input = "one\ntwo\r\nthree";
    for chunk in 1..12 {
        let mut r = make_reader(input, 5);
        r.chunk = chunk;
        assert_eq!(r.next_line().unwrap().unwrap(), "one");
        assert_eq!(r.next_line().unwrap().unwrap(), "two");
        assert_eq!(r.next_line().unwrap().unwrap(), "three");
        assert!(r.next_line().unwrap().is_none());
    }
}

#[test]
fn line_reader_drops_a_long_line_across_chunks() {
    let input = format!("{}\nnext\n", "x".repeat(95));
    let mut r = make_reader(&input, 20);
    r.chunk = 10;
    match r.next_line().unwrap_err() {
        LineError::TooLong(len) => assert_eq!(len, 30),
    }
    assert_eq!(r.next_line().unwrap().unwrap(), "next");
}

#[test]
fn line_reader_ignores_line_ends_at_the_end() {
    let mut r = make_reader("a\n\r\r", 1024);
    assert_eq!(r.next_line().unwrap().unwrap(), "a");
    assert!(r.next_line().unwrap().is_none());
    assert!(r.next_line().unwrap().is_none());
}

#[test]
fn line_reader_replaces_bytes_that_are_not_text() {
    let mut reader = LineReader::new(100);
    reader.feed(&[b'a', 0xff, b'b', b'\n']);
    match reader.poll() {
        LineEvent::Line(line) => assert_eq!(line, "a\u{fffd}b"),
        other => panic!("expected a line, got {:?}", other),
    }
}

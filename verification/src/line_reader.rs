//! Lines from a byte stream, with a bound on their length.
//!
//! A reader that waits for a newline buffers without end when none comes, as with a
//! message whose quotes are not balanced. A [`LineReader`] gives up on a line that is too
//! long: it drops the line up to and including the next newline and goes on behind it.
//!
//! The bytes come from the caller, in chunks of any size.

use vstd::prelude::*;

use crate::engines;
use crate::text;

verus! {

/// Maximum allowed line length (1 MiB). Messages are small; a line that exceeds this is
/// malformed or truncated input.
pub const MAX_LINE_LEN: usize = 1_048_576;

/// Maximum number of consecutive parse errors before the daemon gives up on its client.
pub const MAX_CONSECUTIVE_ERRORS: u32 = 100;

/// What a [`LineReader`] has to say.
#[derive(Debug)]
pub enum LineEvent {
    /// A line, without its newline.
    Line(String),
    /// A line of more than the allowed number of bytes was dropped; as many of them had
    /// been seen.
    TooLong(usize),
    /// More bytes are needed.
    NeedMore,
    /// The stream has ended and every line was given.
    End,
}

/// The model of a [`LineEvent`].
#[verifier::ext_equal]
pub enum LineEventView {
    Line(Seq<char>),
    TooLong(int),
    NeedMore,
    End,
}

impl View for LineEvent {
    type V = LineEventView;

    open spec fn view(&self) -> LineEventView {
        match self {
            LineEvent::Line(s) => LineEventView::Line(s@),
            LineEvent::TooLong(n) => LineEventView::TooLong(*n as int),
            LineEvent::NeedMore => LineEventView::NeedMore,
            LineEvent::End => LineEventView::End,
        }
    }
}

/// A reader that enforces a maximum line length.
#[derive(Debug)]
pub struct LineReader {
    max_len: usize,
    /// The bytes that were not looked at yet.
    buf: Vec<u8>,
    /// A line is being dropped, of which as many bytes had been seen.
    dropping: Option<usize>,
    ended: bool,
}

/// The model of a [`LineReader`].
#[verifier::ext_equal]
pub struct LineReaderView {
    pub max_len: int,
    pub buf: Seq<u8>,
    pub dropping: Option<int>,
    pub ended: bool,
}

impl View for LineReader {
    type V = LineReaderView;

    closed spec fn view(&self) -> LineReaderView {
        LineReaderView {
            max_len: self.max_len as int,
            buf: self.buf@,
            dropping: match self.dropping {
                Some(n) => Some(n as int),
                None => None,
            },
            ended: self.ended,
        }
    }
}

/// The position of the first newline from `i` on; the length where there is none.
pub open spec fn newline_at(b: Seq<u8>, i: int) -> int
    decreases b.len() - i,
{
    if i < 0 || i >= b.len() || b[i] == 10u8 {
        i
    } else {
        newline_at(b, i + 1)
    }
}

/// The text of a line: decoded, without a carriage return at its end.
pub open spec fn line_text(b: Seq<u8>) -> Seq<char> {
    text::strip_cr(engines::lossy_text(b))
}

/// There is nothing but line ends.
pub open spec fn only_line_ends(b: Seq<u8>) -> bool {
    forall|i: int| 0 <= i < b.len() ==> (#[trigger] b[i] == 13u8 || b[i] == 10u8)
}

/// A reader that drops a line goes on dropping it.
pub open spec fn dropped(st: LineReaderView, seen: int) -> (LineReaderView, LineEventView) {
    let nl = newline_at(st.buf, 0);
    if nl < st.buf.len() {
        (
            LineReaderView { buf: st.buf.skip(nl + 1), dropping: None, ..st },
            LineEventView::TooLong(seen),
        )
    } else if st.ended {
        (
            LineReaderView { buf: Seq::empty(), dropping: None, ..st },
            LineEventView::TooLong(seen),
        )
    } else {
        (
            LineReaderView { buf: Seq::empty(), dropping: Some(seen), ..st },
            LineEventView::NeedMore,
        )
    }
}

/// What a reader says, and its state after that.
///
/// A line up to a newline is given, or refused where it is too long. Without a newline,
/// too many bytes make a line that is dropped; at the end of the stream the rest is the
/// last line, unless it is nothing but line ends.
pub open spec fn polled(st: LineReaderView) -> (LineReaderView, LineEventView) {
    let nl = newline_at(st.buf, 0);
    if st.dropping is Some {
        dropped(st, st.dropping->0)
    } else if nl < st.buf.len() {
        (
            LineReaderView { buf: st.buf.skip(nl + 1), ..st },
            if nl > st.max_len {
                LineEventView::TooLong(nl)
            } else {
                LineEventView::Line(line_text(st.buf.take(nl)))
            },
        )
    } else if st.buf.len() > st.max_len {
        dropped(st, st.buf.len() as int)
    } else if !st.ended {
        (st, LineEventView::NeedMore)
    } else if only_line_ends(st.buf) {
        (st, LineEventView::End)
    } else {
        (
            LineReaderView { buf: Seq::empty(), ..st },
            LineEventView::Line(line_text(st.buf)),
        )
    }
}

fn find_newline(b: &[u8]) -> (r: usize)
    ensures
        r == newline_at(b@, 0),
        r <= b@.len(),
{
    let mut i: usize = 0;
    while i < b.len() && b[i] != 10
        invariant
            i <= b@.len(),
            newline_at(b@, i as int) == newline_at(b@, 0),
        decreases b@.len() - i,
    {
        i = i + 1;
    }
    i
}

fn copy_bytes(b: &[u8], from: usize, to: usize) -> (r: Vec<u8>)
    requires
        from <= to <= b@.len(),
    ensures
        r@ == b@.subrange(from as int, to as int),
{
    let mut out: Vec<u8> = Vec::new();
    for i in from..to
        invariant
            from <= to <= b@.len(),
            out@ == b@.subrange(from as int, i as int),
    {
        out.push(b[i]);
        assert(b@.subrange(from as int, i + 1) =~= b@.subrange(from as int, i as int).push(
            b@[i as int],
        ));
    }
    out
}

fn all_line_ends(b: &[u8]) -> (r: bool)
    ensures
        r == only_line_ends(b@),
{
    for i in 0..b.len()
        invariant
            forall|j: int| 0 <= j < i ==> (#[trigger] b@[j] == 13u8 || b@[j] == 10u8),
    {
        if b[i] != 13 && b[i] != 10 {
            assert(b@[i as int] != 13u8);
            return false;
        }
    }
    true
}

fn decode_line(b: &[u8]) -> (r: String)
    ensures
        r@ == line_text(b@),
{
    let s = engines::decode_lossy(b);
    text::without_cr(s.as_str())
}

impl LineReader {
    /// A reader of lines of at most `max_len` bytes.
    pub fn new(max_len: usize) -> (r: Self)
        ensures
            r@ == (LineReaderView {
                max_len: max_len as int,
                buf: Seq::empty(),
                dropping: None,
                ended: false,
            }),
    {
        LineReader { max_len, buf: Vec::new(), dropping: None, ended: false }
    }

    /// Hand over the bytes that came next.
    pub fn feed(&mut self, bytes: &[u8])
        ensures
            final(self)@ == (LineReaderView { buf: old(self)@.buf + bytes@, ..old(self)@ }),
    {
        let ghost start = self.buf@;
        let ghost before = self@;
        assert(start + bytes@.take(0) =~= start);
        for i in 0..bytes.len()
            invariant
                self.buf@ == start + bytes@.take(i as int),
                self.max_len == before.max_len,
                self@.dropping == before.dropping,
                self.ended == before.ended,
        {
            self.buf.push(bytes[i]);
            assert(start + bytes@.take(i + 1) =~= (start + bytes@.take(i as int)).push(
                bytes@[i as int],
            ));
        }
        assert(bytes@.take(bytes@.len() as int) =~= bytes@);
    }

    /// Say that the stream has ended.
    pub fn end(&mut self)
        ensures
            final(self)@ == (LineReaderView { ended: true, ..old(self)@ }),
    {
        self.ended = true;
    }

    fn drop_line(&mut self, seen: usize) -> (r: LineEvent)
        ensures
            (final(self)@, r@) == dropped(old(self)@, seen as int),
    {
        let nl: usize = find_newline(self.buf.as_slice());
        let n: usize = self.buf.len();
        if nl < n {
            let rest = copy_bytes(self.buf.as_slice(), nl + 1, n);
            assert(rest@ =~= self.buf@.skip(nl + 1));
            self.buf = rest;
            self.dropping = None;
            LineEvent::TooLong(seen)
        } else {
            self.buf = Vec::new();
            if self.ended {
                self.dropping = None;
                LineEvent::TooLong(seen)
            } else {
                self.dropping = Some(seen);
                LineEvent::NeedMore
            }
        }
    }

    /// The next line, or what stands in its way. See [`polled`].
    pub fn poll(&mut self) -> (r: LineEvent)
        ensures
            (final(self)@, r@) == polled(old(self)@),
    {
        match self.dropping {
            Some(seen) => {
                return self.drop_line(seen);
            },
            None => {},
        }
        let nl: usize = find_newline(self.buf.as_slice());
        let n: usize = self.buf.len();
        if nl < n {
            let rest = copy_bytes(self.buf.as_slice(), nl + 1, n);
            let line = copy_bytes(self.buf.as_slice(), 0, nl);
            proof {
                assert(rest@ =~= self.buf@.skip(nl + 1));
                assert(line@ =~= self.buf@.take(nl as int));
            }
            self.buf = rest;
            if nl > self.max_len {
                return LineEvent::TooLong(nl);
            }
            return LineEvent::Line(decode_line(line.as_slice()));
        }
        if n > self.max_len {
            return self.drop_line(n);
        }
        if !self.ended {
            return LineEvent::NeedMore;
        }
        if all_line_ends(self.buf.as_slice()) {
            return LineEvent::End;
        }
        let line = decode_line(self.buf.as_slice());
        self.buf = Vec::new();
        LineEvent::Line(line)
    }
}

// ── Laws ─────────────────────────────────────────────────────────────────

/// A reader never gives a line that is too long: what it gives is the text of at most as
/// many bytes as are allowed.
pub proof fn law_line_bounded(st: LineReaderView)
    ensures
        polled(st).1 is Line ==> exists|b: Seq<u8>|
            b.len() <= st.max_len && polled(st).1 == LineEventView::Line(#[trigger] line_text(b)),
{
    let nl = newline_at(st.buf, 0);
    if polled(st).1 is Line {
        lemma_newline_at(st.buf, 0);
        if nl < st.buf.len() {
            assert(polled(st).1 == LineEventView::Line(line_text(st.buf.take(nl))));
        } else {
            assert(polled(st).1 == LineEventView::Line(line_text(st.buf)));
        }
    }
}

/// A line in front of a newline is given whole when it is short enough and is refused
/// when it is not. Either way it takes nothing else along: the rest of the stream is
/// read as if the line had not been there.
pub proof fn law_line_by_line(st: LineReaderView, line: Seq<u8>, rest: Seq<u8>)
    requires
        st.dropping is None,
        st.buf == line.push(10u8) + rest,
        forall|i: int| 0 <= i < line.len() ==> #[trigger] line[i] != 10u8,
    ensures
        polled(st) == (
            LineReaderView { buf: rest, ..st },
            if line.len() > st.max_len {
                LineEventView::TooLong(line.len() as int)
            } else {
                LineEventView::Line(line_text(line))
            },
        ),
{
    assert forall|i: int| 0 <= i < line.len() implies #[trigger] st.buf[i] != 10u8 by {
        assert(st.buf[i] == line[i]);
    }
    lemma_newline_skips(st.buf, 0, line.len() as int);
    assert(st.buf[line.len() as int] == 10u8);
    assert(st.buf.take(line.len() as int) =~= line);
    assert(st.buf.skip(line.len() as int + 1) =~= rest);
}

/// How a stream is cut into chunks does not matter to a line that is not too long: as
/// long as its newline has not come, the reader waits and forgets nothing.
pub proof fn law_waits(st: LineReaderView)
    requires
        st.dropping is None,
        !st.ended,
        st.buf.len() <= st.max_len,
        forall|i: int| 0 <= i < st.buf.len() ==> #[trigger] st.buf[i] != 10u8,
    ensures
        polled(st) == (st, LineEventView::NeedMore),
{
    lemma_newline_skips(st.buf, 0, st.buf.len() as int);
}

/// Behind the newline of a line that is being dropped, reading goes on as usual.
pub proof fn law_recovers(st: LineReaderView, line: Seq<u8>, rest: Seq<u8>)
    requires
        st.dropping is Some,
        st.buf == line.push(10u8) + rest,
        forall|i: int| 0 <= i < line.len() ==> #[trigger] line[i] != 10u8,
    ensures
        polled(st) == (
            LineReaderView { buf: rest, dropping: None, ..st },
            LineEventView::TooLong(st.dropping->0),
        ),
{
    assert forall|i: int| 0 <= i < line.len() implies #[trigger] st.buf[i] != 10u8 by {
        assert(st.buf[i] == line[i]);
    }
    lemma_newline_skips(st.buf, 0, line.len() as int);
    assert(st.buf[line.len() as int] == 10u8);
    assert(st.buf.skip(line.len() as int + 1) =~= rest);
}

/// A reader holds on to no more bytes than a line may have while it waits for more.
pub proof fn law_buffer_bounded(st: LineReaderView)
    requires
        st.max_len >= 0,
    ensures
        polled(st).1 is NeedMore ==> polled(st).0.buf.len() <= st.max_len,
{
}

proof fn lemma_newline_at(b: Seq<u8>, i: int)
    requires
        0 <= i <= b.len(),
    ensures
        i <= newline_at(b, i) <= b.len(),
    decreases b.len() - i,
{
    if i < b.len() && b[i] != 10u8 {
        lemma_newline_at(b, i + 1);
    }
}

proof fn lemma_newline_skips(b: Seq<u8>, i: int, n: int)
    requires
        0 <= i <= n <= b.len(),
        forall|j: int| i <= j < n ==> #[trigger] b[j] != 10u8,
    ensures
        newline_at(b, i) == newline_at(b, n),
    decreases n - i,
{
    if i < n {
        lemma_newline_skips(b, i + 1, n);
    }
}

} // verus!

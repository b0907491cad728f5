//! Source spans and their resolution to a line, a column and an excerpt.
//!
//! Offsets count bytes of the UTF-8 source text. Lines are numbered from 1
//! and end at a line feed; columns are numbered from 1 and count bytes from
//! the start of the line.

use crate::text::{decimal, push_decimal, push_repeat};
use vstd::prelude::*;
use vstd::utf8::*;

verus! {

/// The byte that ends a line.
pub const LINE_FEED: u8 = 10;

/// The byte that may stand before a line feed as part of the line ending.
pub const CARRIAGE_RETURN: u8 = 13;

/// Number of line feeds among the bytes before `offset`.
pub open spec fn line_feeds_before(bytes: Seq<u8>, offset: int) -> nat
    decreases offset,
{
    if offset <= 0 {
        0
    } else if offset <= bytes.len() && bytes[offset - 1] == LINE_FEED {
        line_feeds_before(bytes, offset - 1) + 1
    } else {
        line_feeds_before(bytes, offset - 1)
    }
}

/// Offset of the first byte of the line that `offset` lies in: the offset
/// just past the last line feed before `offset`, or 0 if there is none.
pub open spec fn line_start(bytes: Seq<u8>, offset: int) -> int
    decreases offset,
{
    if offset <= 0 {
        0
    } else if offset <= bytes.len() && bytes[offset - 1] == LINE_FEED {
        offset
    } else {
        line_start(bytes, offset - 1)
    }
}

/// Offset of the first line feed at or after `from`, or the length of
/// `bytes` if there is none.
pub open spec fn next_line_feed(bytes: Seq<u8>, from: int) -> int
    decreases bytes.len() - from,
{
    if from < 0 || from >= bytes.len() {
        bytes.len() as int
    } else if bytes[from] == LINE_FEED {
        from
    } else {
        next_line_feed(bytes, from + 1)
    }
}

/// Offset at which the text of the line that starts at `from` ends. The
/// line ending, a line feed or a carriage return and a line feed, is no
/// part of the text; a carriage return that no line feed follows is.
pub open spec fn line_end(bytes: Seq<u8>, from: int) -> int {
    let feed = next_line_feed(bytes, from);
    if from < feed < bytes.len() && bytes[feed - 1] == CARRIAGE_RETURN {
        feed - 1
    } else {
        feed
    }
}

/// What a span stands for: `len` bytes of `src`, from byte `start` on, in
/// the file named `path`.
pub struct ContextModel {
    pub start: nat,
    pub len: nat,
    pub path: Seq<char>,
    pub src: Seq<char>,
}

impl ContextModel {
    /// The source text as bytes.
    pub open spec fn bytes(self) -> Seq<u8> {
        encode_utf8(self.src)
    }

    /// Number of the line that the span starts in, counted from 1.
    pub open spec fn line(self) -> nat {
        1 + line_feeds_before(self.bytes(), self.start as int)
    }

    /// Offset of the first byte of the line that the span starts in.
    pub open spec fn line_start(self) -> int {
        line_start(self.bytes(), self.start as int)
    }

    /// Number of the column that the span starts in, counted from 1.
    pub open spec fn column(self) -> nat {
        (self.start - self.line_start() + 1) as nat
    }

    /// Whether the line and the column fit into a machine word.
    pub open spec fn fits(self) -> bool {
        self.line() <= usize::MAX && self.column() <= usize::MAX
    }

    /// Whether the source text has the line that the span starts in: the
    /// line is there when at least one byte follows its start.
    pub open spec fn has_line(self) -> bool {
        self.line_start() < self.bytes().len()
    }

    /// Text of the line that the span starts in, without its line ending.
    pub open spec fn line_text(self) -> Seq<char> {
        decode_utf8(
            self.bytes().subrange(self.line_start(), line_end(self.bytes(), self.line_start())),
        )
    }

    /// The span's position, written as path, line and column with colons
    /// in between.
    pub open spec fn location(self) -> Seq<char> {
        self.path + seq![':'] + decimal(self.line()) + seq![':'] + decimal(self.column())
    }

    /// The line that marks the span: a space for each column before the
    /// span, then a caret for each byte of it.
    pub open spec fn underline(self) -> Seq<char> {
        Seq::new((self.column() - 1) as nat, |i: int| ' ') + Seq::new(self.len, |i: int| '^')
    }

    /// The span's position, the line it starts in and the line that marks
    /// it, each on a line of its own.
    pub open spec fn excerpt(self) -> Seq<char> {
        self.location() + seq!['\n'] + self.line_text() + seq!['\n'] + self.underline()
    }
}

/// Past the end of the text there are no more line feeds.
pub proof fn lemma_past_end(bytes: Seq<u8>, offset: int)
    requires
        offset >= bytes.len(),
    ensures
        line_feeds_before(bytes, offset) == line_feeds_before(bytes, bytes.len() as int),
        line_start(bytes, offset) == line_start(bytes, bytes.len() as int),
    decreases offset,
{
    if offset > bytes.len() {
        lemma_past_end(bytes, offset - 1);
    }
}

/// A line starts at or before the offset it is found from, at a place that
/// the text has, and no more lines begin before an offset than there are
/// bytes before it.
pub proof fn lemma_line_bounds(bytes: Seq<u8>, offset: int)
    requires
        0 <= offset,
    ensures
        0 <= line_start(bytes, offset) <= offset,
        line_start(bytes, offset) <= bytes.len(),
        line_feeds_before(bytes, offset) <= offset,
        line_start(bytes, offset) > 0 ==> bytes[line_start(bytes, offset) - 1] == LINE_FEED,
    decreases offset,
{
    if offset > 0 {
        lemma_line_bounds(bytes, offset - 1);
    }
}

/// The text of a line ends inside the text, at or after the line's start,
/// at the end of the text or on a byte of a line ending.
pub proof fn lemma_line_end(bytes: Seq<u8>, from: int)
    requires
        0 <= from <= bytes.len(),
    ensures
        from <= line_end(bytes, from) <= next_line_feed(bytes, from) <= bytes.len(),
        line_end(bytes, from) < bytes.len() ==> bytes[line_end(bytes, from)] == LINE_FEED
            || bytes[line_end(bytes, from)] == CARRIAGE_RETURN,
        next_line_feed(bytes, from) < bytes.len() ==> bytes[next_line_feed(bytes, from)]
            == LINE_FEED,
    decreases bytes.len() - from,
{
    if from < bytes.len() && bytes[from] != LINE_FEED {
        lemma_line_end(bytes, from + 1);
    }
}

/// The excerpt ends with the line that marks the span, and that line is
/// made of one space for each column before the span, then one caret for
/// each byte of the span, and nothing else.
pub proof fn lemma_underline(c: ContextModel)
    ensures
        c.underline().len() == c.column() - 1 + c.len,
        forall|i: int| 0 <= i < c.column() - 1 ==> c.underline()[i] == ' ',
        forall|i: int| c.column() - 1 <= i < c.underline().len() ==> c.underline()[i] == '^',
        c.excerpt().len() > c.underline().len(),
        c.excerpt().skip(c.excerpt().len() - c.underline().len()) == c.underline(),
        c.excerpt()[c.excerpt().len() - c.underline().len() - 1] == '\n',
{
    lemma_line_bounds(c.bytes(), c.start as int);
}

/// In UTF-8, a character starts right after every ASCII byte.
proof fn lemma_boundary_after_ascii(bytes: Seq<u8>, i: int)
    requires
        valid_utf8(bytes),
        0 <= i < bytes.len(),
        bytes[i] <= 0x7f,
    ensures
        is_char_boundary(bytes, i + 1),
    decreases bytes.len(),
{
    if i == 0 {
        reveal_with_fuel(is_char_boundary, 2);
    } else {
        is_char_boundary_iff_not_is_continuation_byte(bytes, i);
        let first = length_of_first_scalar(bytes);
        let rest = pop_first_scalar(bytes);
        lemma_boundary_after_ascii(rest, i - first);
    }
}

/// A span of source text.
#[derive(Debug, Clone, Copy)]
pub struct Context {
    pub start: usize,
    pub len: usize,
    pub path: &'static str,
    pub src: &'static str,
}

impl View for Context {
    type V = ContextModel;

    open spec fn view(&self) -> ContextModel {
        ContextModel {
            start: self.start as nat,
            len: self.len as nat,
            path: self.path@,
            src: self.src@,
        }
    }
}

impl Context {
    /// Counts the line feeds before the span and finds the start of the
    /// line that the span starts in.
    fn find_line(&self) -> (r: (usize, usize))
        ensures
            r.0 == line_feeds_before(self@.bytes(), self.start as int),
            r.1 == self@.line_start(),
            r.0 <= self.start,
            r.1 <= self.start,
            r.1 <= self@.bytes().len(),
    {
        let bytes = self.src.as_bytes();
        let mut feeds: usize = 0;
        let mut first: usize = 0;
        let mut i: usize = 0;
        while i < self.start && i < bytes.len()
            invariant
                i <= self.start,
                i <= bytes@.len(),
                feeds == line_feeds_before(bytes@, i as int),
                first == line_start(bytes@, i as int),
                feeds <= i,
                first <= i,
            decreases bytes@.len() - i,
        {
            if bytes[i] == LINE_FEED {
                feeds += 1;
                first = i + 1;
            }
            i += 1;
        }
        proof {
            if i < self.start {
                lemma_past_end(bytes@, self.start as int);
            }
        }
        (feeds, first)
    }

    /// Line and column of the span's first byte, both counted from 1.
    pub fn get_line_info(&self) -> (r: (usize, usize))
        requires
            self@.fits(),
        ensures
            r.0 == self@.line(),
            r.1 == self@.column(),
            r.0 >= 1,
            r.1 >= 1,
    {
        let (feeds, first) = self.find_line();
        (feeds + 1, self.start - first + 1)
    }

    /// Tells whether the span's line and column fit into a machine word.
    pub fn fits(&self) -> (r: bool)
        ensures
            r == self@.fits(),
    {
        let (feeds, first) = self.find_line();
        feeds < usize::MAX && self.start - first < usize::MAX
    }

    /// Tells whether the span can be shown: its line and column fit into a
    /// machine word, and the source text has the line.
    pub fn is_resolvable(&self) -> (r: bool)
        ensures
            r == (self@.fits() && self@.has_line()),
    {
        let (feeds, first) = self.find_line();
        feeds < usize::MAX && self.start - first < usize::MAX && first < self.src.as_bytes().len()
    }

    /// Writes a position as path, line and column with colons in between.
    fn position(&self, line: usize, column: usize) -> (r: String)
        ensures
            r@ == self.path@ + seq![':'] + decimal(line as nat) + seq![':'] + decimal(
                column as nat,
            ),
    {
        let mut out = String::new();
        proof {
            reveal_strlit(":");
        }
        out.append(self.path);
        out.append(":");
        push_decimal(&mut out, line);
        out.append(":");
        push_decimal(&mut out, column);
        assert(out@ =~= self.path@ + seq![':'] + decimal(line as nat) + seq![':'] + decimal(
            column as nat,
        ));
        out
    }

    /// The span's position in the form `path:line:column`.
    pub fn location(&self) -> (r: String)
        requires
            self@.fits(),
        ensures
            r@ == self@.location(),
    {
        let (line, column) = self.get_line_info();
        self.position(line, column)
    }

    /// The text of the line that starts at offset `first`, without its
    /// line ending.
    fn line_at(&self, first: usize) -> (text: &'static str)
        requires
            first == self@.line_start(),
        ensures
            text@ == self@.line_text(),
    {
        let bytes = self.src.as_bytes();
        proof {
            lemma_line_bounds(bytes@, self.start as int);
        }
        let mut feed = first;
        while feed < bytes.len() && bytes[feed] != LINE_FEED
            invariant
                first <= feed <= bytes@.len(),
                next_line_feed(bytes@, feed as int) == next_line_feed(bytes@, first as int),
            decreases bytes@.len() - feed,
        {
            feed += 1;
        }
        let end = if first < feed && feed < bytes.len() && bytes[feed - 1] == CARRIAGE_RETURN {
            feed - 1
        } else {
            feed
        };
        proof {
            lemma_line_end(bytes@, first as int);
            encode_utf8_valid_utf8(self.src@);
            if first == 0 {
                is_char_boundary_start_end_of_seq(bytes@);
            } else {
                lemma_boundary_after_ascii(bytes@, first - 1);
            }
        }
        let (_, tail) = self.src.split_at(first);
        proof {
            encode_utf8_valid_utf8(tail@);
            if end == bytes@.len() {
                is_char_boundary_start_end_of_seq(encode_utf8(tail@));
            } else {
                is_char_boundary_iff_not_is_continuation_byte(encode_utf8(tail@), end - first);
            }
        }
        let (text, _) = tail.split_at(end - first);
        proof {
            assert(encode_utf8(text@) =~= bytes@.subrange(first as int, end as int));
            encode_utf8_decode_utf8(text@);
        }
        text
    }

    /// The span in its surroundings: the position, the source line that
    /// the span starts in, and under it a line of carets that marks the
    /// span.
    pub fn in_context(&self) -> (r: String)
        requires
            self@.fits(),
            self@.has_line(),
        ensures
            r@ == self@.excerpt(),
    {
        let (line, column) = self.get_line_info();
        proof {
            lemma_line_bounds(self@.bytes(), self.start as int);
            reveal_strlit("\n");
        }
        let line_src = self.line_at(self.start - (column - 1));
        let mut out = self.position(line, column);
        out.append("\n");
        out.append(line_src);
        out.append("\n");
        push_repeat(&mut out, ' ', column - 1);
        push_repeat(&mut out, '^', self.len);
        out
    }
}

} // verus!

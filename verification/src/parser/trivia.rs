//! Whitespace, line breaks and comments, and runs of bytes of one class.

use crate::text::{
    APOSTROPHE, BACKSLASH, QUOTE, CR, DEL, DIGIT_0, DIGIT_1, DIGIT_7, DIGIT_9, HASH, LF, LOWER_A, LOWER_F, LOWER_Z, MINUS, SPACE,
    TAB, UNDERSCORE, UPPER_A, UPPER_F, UPPER_Z,
};
use vstd::prelude::*;

verus! {

/// A set of bytes that a run may be made of.
#[derive(Debug, Clone, Copy, PartialEq, Eq, Structural)]
pub enum ByteClass {
    /// Space and tab.
    Whitespace,
    /// What a comment may hold: tab, printable ASCII, and bytes above ASCII.
    NonEol,
    /// `0` to `9`.
    Digit,
    /// `0` to `9`, `a` to `f`, `A` to `F`.
    HexDigit,
    /// `0` to `7`.
    OctDigit,
    /// `0` and `1`.
    BinDigit,
    /// Letters, digits, `_` and `-`.
    BareKey,
    /// What a literal string may hold: tab and every byte from the space on
    /// but the apostrophe and DEL.
    LiteralChar,
    /// What a basic string may hold unescaped: tab and every byte from the
    /// space on but the double quote, the backslash and DEL.
    BasicChar,
}

impl ByteClass {
    /// Whether `b` belongs to the class.
    pub open spec fn has(self, b: u8) -> bool {
        match self {
            ByteClass::Whitespace => b == SPACE || b == TAB,
            ByteClass::NonEol => b == TAB || (SPACE <= b && b != DEL),
            ByteClass::Digit => DIGIT_0 <= b <= DIGIT_9,
            ByteClass::HexDigit => (DIGIT_0 <= b <= DIGIT_9) || (LOWER_A <= b <= LOWER_F) || (UPPER_A <= b
                <= UPPER_F),
            ByteClass::OctDigit => DIGIT_0 <= b <= DIGIT_7,
            ByteClass::BinDigit => b == DIGIT_0 || b == DIGIT_1,
            ByteClass::BareKey => (DIGIT_0 <= b <= DIGIT_9) || (LOWER_A <= b <= LOWER_Z) || (UPPER_A <= b
                <= UPPER_Z) || b == UNDERSCORE || b == MINUS,
            ByteClass::LiteralChar => b == TAB || (SPACE <= b && b != APOSTROPHE && b != DEL),
            ByteClass::BasicChar => b == TAB || (SPACE <= b && b != QUOTE && b != BACKSLASH && b
                != DEL),
        }
    }

    /// Tells whether `b` belongs to the class.
    pub fn contains(self, b: u8) -> (r: bool)
        ensures
            r == self.has(b),
    {
        match self {
            ByteClass::Whitespace => b == SPACE || b == TAB,
            ByteClass::NonEol => b == TAB || (SPACE <= b && b != DEL),
            ByteClass::Digit => DIGIT_0 <= b && b <= DIGIT_9,
            ByteClass::HexDigit => (DIGIT_0 <= b && b <= DIGIT_9) || (LOWER_A <= b && b <= LOWER_F) || (UPPER_A
                <= b && b <= UPPER_F),
            ByteClass::OctDigit => DIGIT_0 <= b && b <= DIGIT_7,
            ByteClass::BinDigit => b == DIGIT_0 || b == DIGIT_1,
            ByteClass::BareKey => (DIGIT_0 <= b && b <= DIGIT_9) || (LOWER_A <= b && b <= LOWER_Z) || (UPPER_A
                <= b && b <= UPPER_Z) || b == UNDERSCORE || b == MINUS,
            ByteClass::LiteralChar => b == TAB || (SPACE <= b && b != APOSTROPHE && b != DEL),
            ByteClass::BasicChar => b == TAB || (SPACE <= b && b != QUOTE && b != BACKSLASH && b
                != DEL),
        }
    }
}

/// Whether the byte at `pos` exists and is `b`.
pub open spec fn at(s: Seq<u8>, pos: int, b: u8) -> bool {
    0 <= pos < s.len() && s[pos] == b
}

/// Whether the byte at `pos` exists and belongs to `class`.
pub open spec fn at_class(s: Seq<u8>, pos: int, class: ByteClass) -> bool {
    0 <= pos < s.len() && class.has(s[pos])
}

/// Where the longest run of bytes of `class` that starts at `pos` ends.
pub open spec fn span_end(s: Seq<u8>, pos: int, class: ByteClass) -> int
    decreases s.len() - pos,
{
    if at_class(s, pos, class) {
        span_end(s, pos + 1, class)
    } else {
        pos
    }
}

/// A run ends inside the text, at or after its start.
pub proof fn lemma_span_bounds(s: Seq<u8>, pos: int, class: ByteClass)
    requires
        0 <= pos <= s.len(),
    ensures
        pos <= span_end(s, pos, class) <= s.len(),
        !at_class(s, span_end(s, pos, class), class),
    decreases s.len() - pos,
{
    if at_class(s, pos, class) {
        lemma_span_bounds(s, pos + 1, class);
    }
}

/// Tells whether the byte at `pos` exists and is `b`.
pub fn is_at(input: &[u8], pos: usize, b: u8) -> (r: bool)
    ensures
        r == at(input@, pos as int, b),
        input@.len() <= usize::MAX,
{
    pos < input.len() && input[pos] == b
}

/// Tells whether the byte at `pos` exists and belongs to `class`.
pub fn is_at_class(input: &[u8], pos: usize, class: ByteClass) -> (r: bool)
    ensures
        r == at_class(input@, pos as int, class),
        input@.len() <= usize::MAX,
{
    pos < input.len() && class.contains(input[pos])
}

/// Finds where the longest run of bytes of `class` that starts at `pos` ends.
pub fn scan(input: &[u8], pos: usize, class: ByteClass) -> (end: usize)
    requires
        pos <= input@.len(),
    ensures
        end == span_end(input@, pos as int, class),
        pos <= end <= input@.len(),
        input@.len() <= usize::MAX,
{
    let mut i: usize = pos;
    while i < input.len() && class.contains(input[i])
        invariant
            pos <= i <= input@.len(),
            span_end(input@, pos as int, class) == span_end(input@, i as int, class),
        decreases input@.len() - i,
    {
        i += 1;
    }
    i
}

/// The length of the line break at `pos`: 1 for a line feed, 2 for a carriage
/// return and a line feed, 0 where there is neither.
pub open spec fn newline_len(s: Seq<u8>, pos: int) -> int {
    if at(s, pos, LF) {
        1
    } else if at(s, pos, CR) && at(s, pos + 1, LF) {
        2
    } else {
        0
    }
}

/// Measures the line break at `pos`.
pub fn newline_at(input: &[u8], pos: usize) -> (n: usize)
    ensures
        n == newline_len(input@, pos as int),
        pos + n <= input@.len() || n == 0,
{
    if pos < input.len() && input[pos] == LF {
        1
    } else if pos < input.len() && input[pos] == CR && pos + 1 < input.len() && input[pos + 1]
        == LF {
        2
    } else {
        0
    }
}

/// Where the comment that starts at `pos` ends; `pos` itself where no `#`
/// stands.
pub open spec fn comment_end(s: Seq<u8>, pos: int) -> int {
    if at(s, pos, HASH) {
        span_end(s, pos + 1, ByteClass::NonEol)
    } else {
        pos
    }
}

/// Where the longest run of whitespace, line breaks and comments that starts
/// at `pos` ends.
pub open spec fn trivia_end(s: Seq<u8>, pos: int) -> int
    decreases s.len() - pos,
{
    if at_class(s, pos, ByteClass::Whitespace) {
        trivia_end(s, pos + 1)
    } else if newline_len(s, pos) > 0 {
        trivia_end(s, pos + newline_len(s, pos))
    } else if at(s, pos, HASH) {
        proof {
            lemma_span_bounds(s, pos + 1, ByteClass::NonEol);
        }
        trivia_end(s, comment_end(s, pos))
    } else {
        pos
    }
}

/// Such a run ends inside the text, at or after its start.
pub proof fn lemma_trivia_bounds(s: Seq<u8>, pos: int)
    requires
        0 <= pos <= s.len(),
    ensures
        pos <= trivia_end(s, pos) <= s.len(),
    decreases s.len() - pos,
{
    if at_class(s, pos, ByteClass::Whitespace) {
        lemma_trivia_bounds(s, pos + 1);
    } else if newline_len(s, pos) > 0 {
        lemma_trivia_bounds(s, pos + newline_len(s, pos));
    } else if at(s, pos, HASH) {
        lemma_span_bounds(s, pos + 1, ByteClass::NonEol);
        lemma_trivia_bounds(s, comment_end(s, pos));
    }
}

/// Skips whitespace, line breaks and comments from `pos` on.
pub fn skip_trivia(input: &[u8], pos: usize) -> (end: usize)
    requires
        pos <= input@.len(),
    ensures
        end == trivia_end(input@, pos as int),
        pos <= end <= input@.len(),
{
    let len = input.len();
    let mut i: usize = pos;
    loop
        invariant
            len == input@.len(),
            pos <= i <= input@.len(),
            trivia_end(input@, pos as int) == trivia_end(input@, i as int),
        ensures
            pos <= i <= input@.len(),
            i == trivia_end(input@, pos as int),
        decreases input@.len() - i,
    {
        if is_at_class(input, i, ByteClass::Whitespace) {
            i += 1;
        } else {
            let n = newline_at(input, i);
            if n > 0 {
                i += n;
            } else if is_at(input, i, HASH) {
                i = scan(input, i + 1, ByteClass::NonEol);
            } else {
                break ;
            }
        }
    }
    i
}

/// Where the whitespace and the comment end that start at `pos`.
pub open spec fn line_rest_stop(s: Seq<u8>, pos: int) -> int {
    comment_end(s, span_end(s, pos, ByteClass::Whitespace))
}

/// Where a line ends that has only whitespace and perhaps a comment left from
/// `pos` on: behind its line break, or at the end of the text. `None` where
/// something else stands on the line.
pub open spec fn line_rest_end(s: Seq<u8>, pos: int) -> Option<int> {
    let stop = line_rest_stop(s, pos);
    if stop >= s.len() {
        Some(stop)
    } else if newline_len(s, stop) > 0 {
        Some(stop + newline_len(s, stop))
    } else {
        None
    }
}

/// Skips the rest of a line: whitespace, perhaps a comment, and the line
/// break unless the text ends there. Where something else stands on the line,
/// the error is the place where it stands.
pub fn skip_line_rest(input: &[u8], pos: usize) -> (r: Result<usize, usize>)
    requires
        pos <= input@.len(),
    ensures
        match r {
            Ok(end) => line_rest_end(input@, pos as int) == Some(end as int) && pos <= end
                <= input@.len(),
            Err(at) => line_rest_end(input@, pos as int).is_none() && at == line_rest_stop(
                input@,
                pos as int,
            ) && pos <= at < input@.len(),
        },
{
    let len = input.len();
    let blank = scan(input, pos, ByteClass::Whitespace);
    let stop = if is_at(input, blank, HASH) {
        scan(input, blank + 1, ByteClass::NonEol)
    } else {
        blank
    };
    if stop >= len {
        Ok(stop)
    } else {
        let n = newline_at(input, stop);
        if n > 0 {
            Ok(stop + n)
        } else {
            Err(stop)
        }
    }
}

} // verus!

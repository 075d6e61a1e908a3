//! Strings and keys.

use crate::decor::{Decor, DecorView};
use crate::key::{Key, KeyStyle, KeyView};
use crate::parser::numbers::{digits_value, eval_digits, is_at_off};
use crate::parser::trivia::{
    at, at_class, is_at, is_at_class, lemma_span_bounds, newline_at, newline_len, scan, span_end,
    ByteClass,
};
use crate::text::{
    copy_range, APOSTROPHE, BACKSLASH, CR, LF, LOWER_B, LOWER_F, LOWER_N, LOWER_R, LOWER_T,
    LOWER_U, QUOTE, TAB, UPPER_U,
};
use vstd::prelude::*;

verus! {

/// Whether `cp` is a Unicode scalar value.
pub open spec fn is_scalar(cp: int) -> bool {
    (0 <= cp < 0xD800) || (0xE000 <= cp <= 0x10FFFF)
}

/// The UTF-8 encoding of the scalar value `cp`.
pub open spec fn utf8(cp: int) -> Seq<u8> {
    if cp < 0x80 {
        seq![cp as u8]
    } else if cp < 0x800 {
        seq![(0xC0 + cp / 64) as u8, (0x80 + cp % 64) as u8]
    } else if cp < 0x10000 {
        seq![(0xE0 + cp / 4096) as u8, (0x80 + (cp / 64) % 64) as u8, (0x80 + cp % 64) as u8]
    } else {
        seq![
            (0xF0 + cp / 262144) as u8,
            (0x80 + (cp / 4096) % 64) as u8,
            (0x80 + (cp / 64) % 64) as u8,
            (0x80 + cp % 64) as u8,
        ]
    }
}

/// Appends the UTF-8 encoding of `cp` to `out`.
pub fn push_utf8(cp: u32, out: &mut Vec<u8>)
    requires
        is_scalar(cp as int),
    ensures
        final(out)@ == old(out)@ + utf8(cp as int),
{
    if cp < 0x80 {
        out.push(cp as u8);
    } else if cp < 0x800 {
        out.push((0xC0 + cp / 64) as u8);
        out.push((0x80 + cp % 64) as u8);
    } else if cp < 0x10000 {
        out.push((0xE0 + cp / 4096) as u8);
        out.push((0x80 + (cp / 64) % 64) as u8);
        out.push((0x80 + cp % 64) as u8);
    } else {
        out.push((0xF0 + cp / 262144) as u8);
        out.push((0x80 + (cp / 4096) % 64) as u8);
        out.push((0x80 + (cp / 64) % 64) as u8);
        out.push((0x80 + cp % 64) as u8);
    }
    assert(final(out)@ =~= old(out)@ + utf8(cp as int));
}

/// The scalar value written as `n` hexadecimal digits at `pos`, with its
/// UTF-8 encoding and where the digits end.
pub open spec fn spec_unicode_escape(s: Seq<u8>, pos: int, n: int) -> Option<(Seq<u8>, int)> {
    let cp = digits_value(s.subrange(pos, pos + n), 16);
    if span_end(s, pos, ByteClass::HexDigit) >= pos + n && is_scalar(cp) {
        Some((utf8(cp), pos + n))
    } else {
        None
    }
}

/// What the escape sequence stands for whose letter is at `pos`, behind the
/// backslash, and where the sequence ends.
pub open spec fn spec_escape(s: Seq<u8>, pos: int) -> Option<(Seq<u8>, int)> {
    if at(s, pos, LOWER_B) {
        Some((seq![0x08u8], pos + 1))
    } else if at(s, pos, LOWER_T) {
        Some((seq![TAB], pos + 1))
    } else if at(s, pos, LOWER_N) {
        Some((seq![LF], pos + 1))
    } else if at(s, pos, LOWER_F) {
        Some((seq![0x0Cu8], pos + 1))
    } else if at(s, pos, LOWER_R) {
        Some((seq![CR], pos + 1))
    } else if at(s, pos, QUOTE) {
        Some((seq![QUOTE], pos + 1))
    } else if at(s, pos, BACKSLASH) {
        Some((seq![BACKSLASH], pos + 1))
    } else if at(s, pos, LOWER_U) {
        spec_unicode_escape(s, pos + 1, 4)
    } else if at(s, pos, UPPER_U) {
        spec_unicode_escape(s, pos + 1, 8)
    } else {
        None
    }
}

fn parse_unicode_escape(input: &[u8], pos: usize, n: usize, out: &mut Vec<u8>) -> (r: Option<
    usize,
>)
    requires
        pos <= input@.len(),
        n == 4 || n == 8,
    ensures
        match r {
            Some(end) => spec_unicode_escape(input@, pos as int, n as int) == Some(
                (final(out)@.subrange(old(out)@.len() as int, final(out)@.len() as int), end as int),
            ) && final(out)@.subrange(0, old(out)@.len() as int) == old(out)@ && old(out)@.len()
                <= final(out)@.len() && pos < end <= input@.len(),
            None => spec_unicode_escape(input@, pos as int, n as int).is_none() && final(out)@
                == old(out)@,
        },
{
    let stop = scan(input, pos, ByteClass::HexDigit);
    if stop - pos < n {
        return None;
    }
    match eval_digits(input, pos, pos + n, 16) {
        Some(cp) => {
            if cp < 0xD800 || (0xE000 <= cp && cp <= 0x10FFFF) {
                push_utf8(cp as u32, out);
                proof {
                    let added = utf8(cp as int);
                    assert(final(out)@.subrange(old(out)@.len() as int, final(out)@.len() as int)
                        =~= added);
                    assert(final(out)@.subrange(0, old(out)@.len() as int) =~= old(out)@);
                }
                Some(pos + n)
            } else {
                None
            }
        },
        None => None,
    }
}

/// Reads the escape sequence whose letter is at `pos` and appends what it
/// stands for to `out`.
pub fn parse_escape(input: &[u8], pos: usize, out: &mut Vec<u8>) -> (r: Option<usize>)
    requires
        pos <= input@.len(),
    ensures
        match r {
            Some(end) => spec_escape(input@, pos as int) == Some(
                (final(out)@.subrange(old(out)@.len() as int, final(out)@.len() as int), end as int),
            ) && final(out)@.subrange(0, old(out)@.len() as int) == old(out)@ && old(out)@.len()
                <= final(out)@.len() && pos < end <= input@.len(),
            None => spec_escape(input@, pos as int).is_none() && final(out)@ == old(out)@,
        },
{
    let simple: Option<u8> = if is_at(input, pos, LOWER_B) {
        Some(0x08u8)
    } else if is_at(input, pos, LOWER_T) {
        Some(TAB)
    } else if is_at(input, pos, LOWER_N) {
        Some(LF)
    } else if is_at(input, pos, LOWER_F) {
        Some(0x0Cu8)
    } else if is_at(input, pos, LOWER_R) {
        Some(CR)
    } else if is_at(input, pos, QUOTE) {
        Some(QUOTE)
    } else if is_at(input, pos, BACKSLASH) {
        Some(BACKSLASH)
    } else {
        None
    };
    match simple {
        Some(b) => {
            out.push(b);
            proof {
                assert(final(out)@.subrange(old(out)@.len() as int, final(out)@.len() as int)
                    =~= seq![b]);
                assert(final(out)@.subrange(0, old(out)@.len() as int) =~= old(out)@);
            }
            Some(pos + 1)
        },
        None => {
            if is_at(input, pos, LOWER_U) {
                parse_unicode_escape(input, pos + 1, 4, out)
            } else if is_at(input, pos, UPPER_U) {
                parse_unicode_escape(input, pos + 1, 8, out)
            } else {
                None
            }
        },
    }
}

/// An escape sequence ends behind its letter, inside the text.
pub proof fn lemma_escape_advances(s: Seq<u8>, pos: int)
    ensures
        spec_escape(s, pos) matches Some((_, next)) ==> pos < next <= s.len(),
{
    if 0 <= pos < s.len() {
        lemma_span_bounds(s, pos + 1, ByteClass::HexDigit);
    }
}

/// The text that the body of a basic string stands for, from `pos` up to the
/// closing quote, and where that quote is.
pub open spec fn spec_basic_body(s: Seq<u8>, pos: int) -> Option<(Seq<u8>, int)>
    decreases s.len() - pos,
{
    if at(s, pos, QUOTE) {
        Some((Seq::empty(), pos))
    } else if at(s, pos, BACKSLASH) {
        match spec_escape(s, pos + 1) {
            Some((bytes, next)) => {
                proof {
                    lemma_escape_advances(s, pos + 1);
                }
                match spec_basic_body(s, next) {
                    Some((rest, close)) => Some((bytes + rest, close)),
                    None => None,
                }
            },
            None => None,
        }
    } else if at_class(s, pos, ByteClass::BasicChar) {
        match spec_basic_body(s, pos + 1) {
            Some((rest, close)) => Some((seq![s[pos]] + rest, close)),
            None => None,
        }
    } else {
        None
    }
}

/// The closing quote of a basic string stands inside the text, at or behind
/// the start of the body.
pub proof fn lemma_basic_body_bounds(s: Seq<u8>, pos: int)
    requires
        0 <= pos <= s.len(),
    ensures
        spec_basic_body(s, pos) matches Some((_, close)) ==> pos <= close < s.len(),
    decreases s.len() - pos,
{
    if at(s, pos, QUOTE) {
    } else if at(s, pos, BACKSLASH) {
        lemma_escape_advances(s, pos + 1);
        if let Some((_, next)) = spec_escape(s, pos + 1) {
            lemma_basic_body_bounds(s, next);
        }
    } else if at_class(s, pos, ByteClass::BasicChar) {
        lemma_basic_body_bounds(s, pos + 1);
    }
}

/// Reads the body of a basic string from `pos` on.
pub fn parse_basic_body(input: &[u8], pos: usize) -> (r: Option<(Vec<u8>, usize)>)
    requires
        pos <= input@.len(),
    ensures
        match r {
            Some((text, close)) => spec_basic_body(input@, pos as int) == Some(
                (text@, close as int),
            ) && pos <= close < input@.len(),
            None => spec_basic_body(input@, pos as int).is_none(),
        },
{
    let mut text: Vec<u8> = Vec::new();
    let mut i: usize = pos;
    loop
        invariant
            pos <= i <= input@.len(),
            match spec_basic_body(input@, i as int) {
                Some((rest, close)) => spec_basic_body(input@, pos as int) == Some(
                    (text@ + rest, close),
                ),
                None => spec_basic_body(input@, pos as int).is_none(),
            },
        decreases input@.len() - i,
    {
        if is_at(input, i, QUOTE) {
            assert(text@ + Seq::<u8>::empty() =~= text@);
            return Some((text, i));
        } else if is_at(input, i, BACKSLASH) {
            let ghost before = text@;
            match parse_escape(input, i + 1, &mut text) {
                Some(next) => {
                    proof {
                        let bytes = text@.subrange(before.len() as int, text@.len() as int);
                        assert(text@ =~= before + bytes);
                        match spec_basic_body(input@, next as int) {
                            Some((rest, close)) => {
                                assert(before + (bytes + rest) =~= text@ + rest);
                            },
                            None => {},
                        }
                    }
                    i = next;
                },
                None => {
                    return None;
                },
            }
        } else if is_at_class(input, i, ByteClass::BasicChar) {
            let ghost before = text@;
            text.push(input[i]);
            proof {
                match spec_basic_body(input@, i as int + 1) {
                    Some((rest, close)) => {
                        assert(before + (seq![input@[i as int]] + rest) =~= text@ + rest);
                    },
                    None => {},
                }
            }
            i += 1;
        } else {
            return None;
        }
    }
}

/// A string on one line as it is written at `pos`: the text it stands for
/// and where it ends. A basic string stands between double quotes and may
/// hold escapes; a literal string stands between apostrophes and is taken as
/// it is.
pub open spec fn spec_short_string(s: Seq<u8>, pos: int) -> Option<(Seq<u8>, int)> {
    if at(s, pos, QUOTE) {
        match spec_basic_body(s, pos + 1) {
            Some((text, close)) => Some((text, close + 1)),
            None => None,
        }
    } else if at(s, pos, APOSTROPHE) {
        let close = span_end(s, pos + 1, ByteClass::LiteralChar);
        if at(s, close, APOSTROPHE) {
            Some((s.subrange(pos + 1, close), close + 1))
        } else {
            None
        }
    } else {
        None
    }
}

/// Reads the one-line string at `pos`.
pub fn parse_short_string(input: &[u8], pos: usize) -> (r: Option<(Vec<u8>, usize)>)
    requires
        pos <= input@.len(),
    ensures
        match r {
            Some((text, end)) => spec_short_string(input@, pos as int) == Some((text@, end as int))
                && pos < end <= input@.len(),
            None => spec_short_string(input@, pos as int).is_none(),
        },
{
    if is_at(input, pos, QUOTE) {
        match parse_basic_body(input, pos + 1) {
            Some((text, close)) => Some((text, close + 1)),
            None => None,
        }
    } else if is_at(input, pos, APOSTROPHE) {
        let close = scan(input, pos + 1, ByteClass::LiteralChar);
        if is_at(input, close, APOSTROPHE) {
            Some((copy_range(input, pos + 1, close), close + 1))
        } else {
            None
        }
    } else {
        None
    }
}

/// The key written at `pos` and where it ends: a quoted key is written as a
/// string, a bare key is a run of letters, digits, `_` and `-`.
pub open spec fn spec_key(s: Seq<u8>, pos: int) -> Option<(KeyView, int)> {
    if at(s, pos, QUOTE) || at(s, pos, APOSTROPHE) {
        match spec_short_string(s, pos) {
            Some((name, end)) => Some(
                (
                    KeyView {
                        decor: DecorView::empty(),
                        raw: s.subrange(pos, end),
                        name,
                        style: if at(s, pos, QUOTE) {
                            KeyStyle::Basic
                        } else {
                            KeyStyle::Literal
                        },
                    },
                    end,
                ),
            ),
            None => None,
        }
    } else {
        let end = span_end(s, pos, ByteClass::BareKey);
        if end > pos {
            Some(
                (
                    KeyView {
                        decor: DecorView::empty(),
                        raw: s.subrange(pos, end),
                        name: s.subrange(pos, end),
                        style: KeyStyle::Bare,
                    },
                    end,
                ),
            )
        } else {
            None
        }
    }
}

/// A key ends inside the text, behind its start.
pub proof fn lemma_key_bounds(s: Seq<u8>, pos: int)
    requires
        0 <= pos <= s.len(),
    ensures
        spec_key(s, pos) matches Some((_, end)) ==> pos < end <= s.len(),
{
    if at(s, pos, QUOTE) {
        lemma_basic_body_bounds(s, pos + 1);
    } else if at(s, pos, APOSTROPHE) {
        lemma_span_bounds(s, pos + 1, ByteClass::LiteralChar);
    } else {
        lemma_span_bounds(s, pos, ByteClass::BareKey);
    }
}

/// Reads the key at `pos`.
pub fn parse_key(input: &[u8], pos: usize) -> (r: Option<(Key, usize)>)
    requires
        pos <= input@.len(),
    ensures
        match r {
            Some((key, end)) => spec_key(input@, pos as int) == Some((key@, end as int)) && pos
                < end <= input@.len() && key@.render() == input@.subrange(pos as int, end as int),
            None => spec_key(input@, pos as int).is_none(),
        },
{
    let quoted = is_at(input, pos, QUOTE);
    if quoted || is_at(input, pos, APOSTROPHE) {
        match parse_short_string(input, pos) {
            Some((name, end)) => {
                let key = Key {
                    decor: Decor::empty(),
                    raw: copy_range(input, pos, end),
                    name,
                    style: if quoted {
                        KeyStyle::Basic
                    } else {
                        KeyStyle::Literal
                    },
                };
                assert(key@.render() =~= input@.subrange(pos as int, end as int));
                Some((key, end))
            },
            None => None,
        }
    } else {
        let end = scan(input, pos, ByteClass::BareKey);
        if end > pos {
            let key = Key {
                decor: Decor::empty(),
                raw: copy_range(input, pos, end),
                name: copy_range(input, pos, end),
                style: KeyStyle::Bare,
            };
            assert(key@.render() =~= input@.subrange(pos as int, end as int));
            Some((key, end))
        } else {
            None
        }
    }
}

/// Whether three bytes `b` stand at `pos`.
pub open spec fn triple_at(s: Seq<u8>, pos: int, b: u8) -> bool {
    at(s, pos, b) && at(s, pos + 1, b) && at(s, pos + 2, b)
}

/// Tells whether three bytes `b` stand at `pos`.
pub fn is_triple_at(input: &[u8], pos: usize, b: u8) -> (r: bool)
    requires
        pos <= input@.len(),
    ensures
        r == triple_at(input@, pos as int, b),
        input@.len() <= usize::MAX,
{
    is_at_off(input, pos, 0, b) && is_at_off(input, pos, 1, b) && is_at_off(input, pos, 2, b)
}

/// Where the longest run of whitespace and line breaks that starts at `pos`
/// ends.
pub open spec fn blank_end(s: Seq<u8>, pos: int) -> int
    decreases s.len() - pos,
{
    if at_class(s, pos, ByteClass::Whitespace) {
        blank_end(s, pos + 1)
    } else if newline_len(s, pos) > 0 {
        blank_end(s, pos + newline_len(s, pos))
    } else {
        pos
    }
}

/// Such a run ends inside the text, at or after its start.
pub proof fn lemma_blank_bounds(s: Seq<u8>, pos: int)
    requires
        0 <= pos <= s.len(),
    ensures
        pos <= blank_end(s, pos) <= s.len(),
    decreases s.len() - pos,
{
    if at_class(s, pos, ByteClass::Whitespace) {
        lemma_blank_bounds(s, pos + 1);
    } else if newline_len(s, pos) > 0 {
        lemma_blank_bounds(s, pos + newline_len(s, pos));
    }
}

/// Skips whitespace and line breaks from `pos` on.
pub fn skip_blank(input: &[u8], pos: usize) -> (end: usize)
    requires
        pos <= input@.len(),
    ensures
        end == blank_end(input@, pos as int),
        pos <= end <= input@.len(),
{
    let len = input.len();
    let mut i: usize = pos;
    loop
        invariant
            len == input@.len(),
            pos <= i <= input@.len(),
            blank_end(input@, pos as int) == blank_end(input@, i as int),
        ensures
            pos <= i <= input@.len(),
            i == blank_end(input@, pos as int),
        decreases input@.len() - i,
    {
        if is_at_class(input, i, ByteClass::Whitespace) {
            i += 1;
        } else {
            let n = newline_at(input, i);
            if n > 0 {
                i += n;
            } else {
                break ;
            }
        }
    }
    i
}

/// Where the text goes on behind a backslash at the end of a line: the
/// backslash at `pos`, whitespace up to the line break, and all whitespace
/// and line breaks behind it are passed over. `None` where the backslash does
/// not end its line.
pub open spec fn continuation_end(s: Seq<u8>, pos: int) -> Option<int> {
    let stop = span_end(s, pos + 1, ByteClass::Whitespace);
    if at(s, pos, BACKSLASH) && newline_len(s, stop) > 0 {
        Some(blank_end(s, stop))
    } else {
        None
    }
}

/// A line continuation ends behind its backslash, inside the text.
pub proof fn lemma_continuation_advances(s: Seq<u8>, pos: int)
    ensures
        continuation_end(s, pos) matches Some(next) ==> pos < next <= s.len(),
{
    if at(s, pos, BACKSLASH) {
        lemma_span_bounds(s, pos + 1, ByteClass::Whitespace);
        let stop = span_end(s, pos + 1, ByteClass::Whitespace);
        if newline_len(s, stop) > 0 {
            lemma_blank_bounds(s, stop);
            assert(blank_end(s, stop) == blank_end(s, stop + newline_len(s, stop)));
            lemma_blank_bounds(s, stop + newline_len(s, stop));
        }
    }
}

/// The text that the body of a basic string of several lines stands for,
/// from `pos` up to the closing quotes, and where these are. Line breaks
/// stand for themselves; a backslash at the end of a line takes the line
/// break and the whitespace behind it away; single and double quotes may
/// stand in the body.
pub open spec fn spec_ml_basic_body(s: Seq<u8>, pos: int) -> Option<(Seq<u8>, int)>
    decreases s.len() - pos,
{
    if triple_at(s, pos, QUOTE) {
        Some((Seq::empty(), pos))
    } else if continuation_end(s, pos) is Some {
        proof {
            lemma_continuation_advances(s, pos);
        }
        spec_ml_basic_body(s, continuation_end(s, pos).unwrap())
    } else if at(s, pos, BACKSLASH) {
        match spec_escape(s, pos + 1) {
            Some((bytes, next)) => {
                proof {
                    lemma_escape_advances(s, pos + 1);
                }
                match spec_ml_basic_body(s, next) {
                    Some((rest, close)) => Some((bytes + rest, close)),
                    None => None,
                }
            },
            None => None,
        }
    } else if newline_len(s, pos) > 0 {
        match spec_ml_basic_body(s, pos + newline_len(s, pos)) {
            Some((rest, close)) => Some((s.subrange(pos, pos + newline_len(s, pos)) + rest, close)),
            None => None,
        }
    } else if at_class(s, pos, ByteClass::BasicChar) || at(s, pos, QUOTE) {
        match spec_ml_basic_body(s, pos + 1) {
            Some((rest, close)) => Some((seq![s[pos]] + rest, close)),
            None => None,
        }
    } else {
        None
    }
}

/// Reads the body of a basic string of several lines from `pos` on.
pub fn parse_ml_basic_body(input: &[u8], pos: usize) -> (r: Option<(Vec<u8>, usize)>)
    requires
        pos <= input@.len(),
    ensures
        match r {
            Some((text, close)) => spec_ml_basic_body(input@, pos as int) == Some(
                (text@, close as int),
            ) && pos <= close && close + 3 <= input@.len(),
            None => spec_ml_basic_body(input@, pos as int).is_none(),
        },
{
    let mut text: Vec<u8> = Vec::new();
    let mut i: usize = pos;
    loop
        invariant
            pos <= i <= input@.len(),
            match spec_ml_basic_body(input@, i as int) {
                Some((rest, close)) => spec_ml_basic_body(input@, pos as int) == Some(
                    (text@ + rest, close),
                ),
                None => spec_ml_basic_body(input@, pos as int).is_none(),
            },
        decreases input@.len() - i,
    {
        let ghost before = text@;
        if is_triple_at(input, i, QUOTE) {
            assert(text@ + Seq::<u8>::empty() =~= text@);
            return Some((text, i));
        } else if is_at(input, i, BACKSLASH) {
            let stop = scan(input, i + 1, ByteClass::Whitespace);
            if newline_at(input, stop) > 0 {
                proof {
                    lemma_continuation_advances(input@, i as int);
                }
                i = skip_blank(input, stop);
            } else {
                match parse_escape(input, i + 1, &mut text) {
                    Some(next) => {
                        proof {
                            let bytes = text@.subrange(before.len() as int, text@.len() as int);
                            assert(text@ =~= before + bytes);
                            match spec_ml_basic_body(input@, next as int) {
                                Some((rest, close)) => {
                                    assert(before + (bytes + rest) =~= text@ + rest);
                                },
                                None => {},
                            }
                        }
                        i = next;
                    },
                    None => {
                        return None;
                    },
                }
            }
        } else {
            let n = newline_at(input, i);
            if n > 0 {
                if n == 2 {
                    text.push(input[i]);
                    text.push(input[i + 1]);
                } else {
                    text.push(input[i]);
                }
                proof {
                    let bytes = input@.subrange(i as int, i + n);
                    assert(text@ =~= before + bytes);
                    match spec_ml_basic_body(input@, i + n) {
                        Some((rest, close)) => {
                            assert(before + (bytes + rest) =~= text@ + rest);
                        },
                        None => {},
                    }
                }
                i += n;
            } else if is_at_class(input, i, ByteClass::BasicChar) || is_at(input, i, QUOTE) {
                text.push(input[i]);
                proof {
                    match spec_ml_basic_body(input@, i as int + 1) {
                        Some((rest, close)) => {
                            assert(before + (seq![input@[i as int]] + rest) =~= text@ + rest);
                        },
                        None => {},
                    }
                }
                i += 1;
            } else {
                return None;
            }
        }
    }
}

/// Where the closing apostrophes of a literal string of several lines stand
/// whose body starts at `pos`. The body may hold line breaks and single
/// apostrophes.
pub open spec fn spec_ml_literal_end(s: Seq<u8>, pos: int) -> Option<int>
    decreases s.len() - pos,
{
    if triple_at(s, pos, APOSTROPHE) {
        Some(pos)
    } else if newline_len(s, pos) > 0 {
        spec_ml_literal_end(s, pos + newline_len(s, pos))
    } else if at_class(s, pos, ByteClass::LiteralChar) || at(s, pos, APOSTROPHE) {
        spec_ml_literal_end(s, pos + 1)
    } else {
        None
    }
}

/// Finds the closing apostrophes of a literal string of several lines.
pub fn parse_ml_literal_end(input: &[u8], pos: usize) -> (r: Option<usize>)
    requires
        pos <= input@.len(),
    ensures
        match r {
            Some(close) => spec_ml_literal_end(input@, pos as int) == Some(close as int) && pos
                <= close && close + 3 <= input@.len(),
            None => spec_ml_literal_end(input@, pos as int).is_none(),
        },
{
    let mut i: usize = pos;
    loop
        invariant
            pos <= i <= input@.len(),
            spec_ml_literal_end(input@, pos as int) == spec_ml_literal_end(input@, i as int),
        decreases input@.len() - i,
    {
        if is_triple_at(input, i, APOSTROPHE) {
            return Some(i);
        }
        let n = newline_at(input, i);
        if n > 0 {
            i += n;
        } else if is_at_class(input, i, ByteClass::LiteralChar) || is_at(input, i, APOSTROPHE) {
            i += 1;
        } else {
            return None;
        }
    }
}

/// A string as it is written at `pos`: the text it stands for and where it
/// ends. Between three quotes or three apostrophes a string may run over
/// several lines, and a line break right behind the opening ones is not part
/// of it; else it is a string on one line.
pub open spec fn spec_string(s: Seq<u8>, pos: int) -> Option<(Seq<u8>, int)> {
    let start = pos + 3 + newline_len(s, pos + 3);
    if triple_at(s, pos, QUOTE) {
        match spec_ml_basic_body(s, start) {
            Some((text, close)) => Some((text, close + 3)),
            None => None,
        }
    } else if triple_at(s, pos, APOSTROPHE) {
        match spec_ml_literal_end(s, start) {
            Some(close) => Some((s.subrange(start, close), close + 3)),
            None => None,
        }
    } else {
        spec_short_string(s, pos)
    }
}

/// Reads the string at `pos`.
pub fn parse_string(input: &[u8], pos: usize) -> (r: Option<(Vec<u8>, usize)>)
    requires
        pos <= input@.len(),
    ensures
        match r {
            Some((text, end)) => spec_string(input@, pos as int) == Some((text@, end as int))
                && pos < end <= input@.len(),
            None => spec_string(input@, pos as int).is_none(),
        },
{
    if is_triple_at(input, pos, QUOTE) {
        let start = pos + 3 + newline_at(input, pos + 3);
        match parse_ml_basic_body(input, start) {
            Some((text, close)) => Some((text, close + 3)),
            None => None,
        }
    } else if is_triple_at(input, pos, APOSTROPHE) {
        let start = pos + 3 + newline_at(input, pos + 3);
        match parse_ml_literal_end(input, start) {
            Some(close) => Some((copy_range(input, start, close), close + 3)),
            None => None,
        }
    } else {
        parse_short_string(input, pos)
    }
}

} // verus!

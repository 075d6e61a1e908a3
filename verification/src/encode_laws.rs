//! What is written anew reads back as what it was written from.

use crate::decor::DecorView;
use crate::encode::{
    boolean_text, decimal, decimal_digits, escape_byte, escaped, hex_digit, is_bare, quoted,
};
use crate::key::KeyView;
use crate::parser::numbers::{
    dec_end, digit_value, digits_end, digits_value, sign_end, spec_boolean, spec_datetime_end,
    spec_float_end, spec_integer,
};
use crate::parser::strings::{
    spec_basic_body, spec_escape, spec_key, spec_short_string, spec_string, spec_unicode_escape,
    utf8,
};
use crate::parser::trivia::{at, at_class, span_end, ByteClass};
use crate::parser::value::{spec_scalar, spec_value};
use crate::text::{BACKSLASH, DIGIT_0, LOWER_U, MINUS, QUOTE};
use crate::value::ValueView;
use vstd::prelude::*;

verus! {

/// A run goes on as long as its bytes are of the class.
pub proof fn lemma_span_covers(s: Seq<u8>, pos: int, stop: int, class: ByteClass)
    requires
        0 <= pos <= stop <= s.len(),
        forall|i: int| pos <= i < stop ==> class.has(#[trigger] s[i]),
    ensures
        span_end(s, pos, class) == span_end(s, stop, class),
        span_end(s, pos, class) >= stop,
    decreases stop - pos,
{
    if pos < stop {
        assert(class.has(s[pos]));
        lemma_span_covers(s, pos + 1, stop, class);
    }
    crate::parser::trivia::lemma_span_bounds(s, stop, class);
}

/// The text of two texts, one behind the other, inside a basic string.
pub proof fn lemma_escaped_concat(a: Seq<u8>, b: Seq<u8>)
    ensures
        escaped(a + b) == escaped(a) + escaped(b),
    decreases b.len(),
{
    if b.len() == 0 {
        assert(a + b =~= a);
        assert(escaped(a) + escaped(b) =~= escaped(a));
    } else {
        lemma_escaped_concat(a, b.drop_last());
        assert((a + b).drop_last() =~= a + b.drop_last());
        assert((a + b).last() == b.last());
        assert(escaped(a + b) =~= escaped(a) + escaped(b));
    }
}

/// The text of a single byte inside a basic string.
pub proof fn lemma_escaped_one(b: u8)
    ensures
        escaped(seq![b]) == escape_byte(b),
{
    assert(seq![b].drop_last() =~= Seq::<u8>::empty());
    assert(seq![b].last() == b);
    assert(escaped(Seq::<u8>::empty()) =~= Seq::<u8>::empty());
    assert(escaped(seq![b]) =~= escape_byte(b));
}

/// A byte written as `\u00XX` reads back as the byte.
pub proof fn lemma_control_escape(s: Seq<u8>, pos: int, b: u8)
    requires
        0 <= pos,
        pos + 5 <= s.len(),
        b < 0x80,
        s[pos] == LOWER_U,
        s[pos + 1] == DIGIT_0,
        s[pos + 2] == DIGIT_0,
        s[pos + 3] == hex_digit(b as int / 16),
        s[pos + 4] == hex_digit(b as int % 16),
    ensures
        spec_escape(s, pos) == Some((seq![b], pos + 5)),
{
    let t = s.subrange(pos + 1, pos + 5);
    assert(ByteClass::HexDigit.has(s[pos + 1]));
    assert(ByteClass::HexDigit.has(s[pos + 2]));
    assert(ByteClass::HexDigit.has(s[pos + 3]));
    assert(ByteClass::HexDigit.has(s[pos + 4]));
    lemma_span_covers(s, pos + 1, pos + 5, ByteClass::HexDigit);
    let t3 = t.drop_last();
    let t2 = t3.drop_last();
    let t1 = t2.drop_last();
    assert(t1.drop_last() =~= Seq::<u8>::empty());
    assert(digits_value(t1.drop_last(), 16) == 0);
    assert(t1.last() == DIGIT_0);
    assert(digits_value(t1, 16) == 0);
    assert(t2.last() == DIGIT_0);
    assert(digits_value(t2, 16) == 0);
    assert(t3.last() == hex_digit(b as int / 16));
    assert(digit_value(hex_digit(b as int / 16)) == b as int / 16);
    assert(digits_value(t3, 16) == b as int / 16);
    assert(t.last() == hex_digit(b as int % 16));
    assert(digit_value(hex_digit(b as int % 16)) == b as int % 16);
    assert(digits_value(t, 16) == (b as int / 16) * 16 + b as int % 16);
    assert(digits_value(t, 16) == b as int);
    assert(utf8(b as int) =~= seq![b]);
    assert(spec_unicode_escape(s, pos + 1, 4) == Some((seq![b], pos + 5)));
}

/// Where a byte stands in a text as it is written inside a basic string, the
/// body of the string stands for the byte and for what the rest stands for.
pub proof fn lemma_escape_step(s: Seq<u8>, p: int, b: u8)
    requires
        0 <= p,
        p + escape_byte(b).len() <= s.len(),
        s.subrange(p, p + escape_byte(b).len()) == escape_byte(b),
    ensures
        spec_basic_body(s, p) == match spec_basic_body(s, p + escape_byte(b).len()) {
            Some((rest, close)) => Some((seq![b] + rest, close)),
            None => None,
        },
{
    let e = escape_byte(b);
    let piece = s.subrange(p, p + e.len());
    assert forall|i: int| 0 <= i < e.len() implies s[p + i] == e[i] by {
        assert(piece[i] == e[i]);
    }
    if b == QUOTE || b == BACKSLASH {
        assert(s[p] == e[0]);
        assert(s[p + 1] == e[1]);
        assert(spec_escape(s, p + 1) == Some((seq![b], p + 2)));
    } else if ByteClass::BasicChar.has(b) {
        assert(s[p] == e[0]);
    } else {
        assert(s[p] == e[0]);
        assert(s[p + 1] == e[1]);
        assert(s[p + 2] == e[2]);
        assert(s[p + 3] == e[3]);
        assert(s[p + 4] == e[4]);
        assert(s[p + 5] == e[5]);
        lemma_control_escape(s, p + 1, b);
    }
}

/// Where a text stands as it is written inside a basic string, with the
/// closing quote behind it, the body of the string stands for the text.
pub proof fn lemma_escaped_reads_back(s: Seq<u8>, p: int, text: Seq<u8>)
    requires
        0 <= p,
        p + escaped(text).len() < s.len(),
        s.subrange(p, p + escaped(text).len()) == escaped(text),
        s[p + escaped(text).len()] == QUOTE,
    ensures
        spec_basic_body(s, p) == Some((text, p + escaped(text).len())),
    decreases text.len(),
{
    if text.len() == 0 {
        assert(escaped(text) =~= Seq::<u8>::empty());
    } else {
        let b = text[0];
        let tail = text.skip(1);
        let e = escape_byte(b);
        assert(text =~= seq![b] + tail);
        lemma_escaped_concat(seq![b], tail);
        lemma_escaped_one(b);
        assert(escaped(text) == e + escaped(tail));
        let whole = s.subrange(p, p + escaped(text).len());
        assert(s.subrange(p, p + e.len()) =~= whole.subrange(0, e.len() as int));
        assert(whole.subrange(0, e.len() as int) =~= e);
        assert(s.subrange(p + e.len(), p + e.len() + escaped(tail).len()) =~= whole.subrange(
            e.len() as int,
            whole.len() as int,
        ));
        assert(whole.subrange(e.len() as int, whole.len() as int) =~= escaped(tail));
        lemma_escape_step(s, p, b);
        lemma_escaped_reads_back(s, p + e.len(), tail);
    }
}

/// A text written as a basic string reads back as the text.
pub proof fn law_string_reads_back(text: Seq<u8>)
    ensures
        spec_short_string(quoted(text), 0) == Some((text, quoted(text).len() as int)),
        spec_string(quoted(text), 0) == Some((text, quoted(text).len() as int)),
{
    let q = quoted(text);
    assert(q.subrange(1, 1 + escaped(text).len() as int) =~= escaped(text));
    lemma_escaped_reads_back(q, 1, text);
    assert(q[0] == QUOTE);
    if text.len() == 0 {
        assert(escaped(text) =~= Seq::<u8>::empty());
        assert(q.len() == 2);
    } else {
        let b = text[0];
        let tail = text.skip(1);
        assert(text =~= seq![b] + tail);
        lemma_escaped_concat(seq![b], tail);
        lemma_escaped_one(b);
        assert(q =~= seq![QUOTE] + escape_byte(b) + escaped(tail) + seq![QUOTE]);
        assert(q[1] == escape_byte(b)[0]);
        assert(q[1] != QUOTE);
    }
}

/// A key written for a name reads back as that key.
pub proof fn law_key_reads_back(name: Seq<u8>)
    ensures
        spec_key(KeyView::of_name(name).raw, 0) == Some(
            (KeyView::of_name(name), KeyView::of_name(name).raw.len() as int),
        ),
{
    let raw = KeyView::of_name(name).raw;
    if is_bare(name) {
        assert(ByteClass::BareKey.has(name[0]));
        lemma_span_covers(raw, 0, raw.len() as int, ByteClass::BareKey);
        assert(span_end(raw, raw.len() as int, ByteClass::BareKey) == raw.len());
        assert(raw.subrange(0, raw.len() as int) =~= raw);
    } else {
        law_string_reads_back(name);
        assert(raw[0] == QUOTE);
        assert(raw.subrange(0, raw.len() as int) =~= raw);
    }
}

/// `true` and `false` read back as what they say.
pub proof fn law_boolean_reads_back(b: bool)
    ensures
        spec_boolean(boolean_text(b), 0) == Some((b, boolean_text(b).len() as int)),
{
}

/// The decimal digits of a number are digits, the first of them `0` only for
/// the number 0, and they spell the number.
pub proof fn lemma_decimal_digits(m: int)
    requires
        0 <= m,
    ensures
        decimal_digits(m).len() >= 1,
        forall|i: int|
            0 <= i < decimal_digits(m).len() ==> ByteClass::Digit.has(#[trigger] decimal_digits(m)[i]),
        decimal_digits(m)[0] == DIGIT_0 <==> m == 0,
        digits_value(decimal_digits(m), 10) == m,
    decreases m,
{
    let t = decimal_digits(m);
    if m < 10 {
        assert(t.drop_last() =~= Seq::<u8>::empty());
        assert(digits_value(t.drop_last(), 10) == 0);
        assert(digit_value(t.last()) == m);
    } else {
        lemma_decimal_digits(m / 10);
        assert(t.drop_last() =~= decimal_digits(m / 10));
        assert(digit_value(t.last()) == m % 10);
        assert(t[0] == decimal_digits(m / 10)[0]);
    }
}

/// A run of digits without underscores ends where the digits end.
pub proof fn lemma_digits_cover(s: Seq<u8>, pos: int, stop: int)
    requires
        0 <= pos < stop <= s.len(),
        forall|i: int| pos <= i < stop ==> ByteClass::Digit.has(#[trigger] s[i]),
        stop == s.len() || (!ByteClass::Digit.has(s[stop]) && s[stop] != crate::text::UNDERSCORE),
    ensures
        digits_end(s, pos, ByteClass::Digit) == stop,
    decreases stop - pos,
{
    assert(ByteClass::Digit.has(s[pos]));
    if pos + 1 < stop {
        assert(ByteClass::Digit.has(s[pos + 1]));
        lemma_digits_cover(s, pos + 1, stop);
    }
}

/// A number written in decimal digits reads back as the number.
pub proof fn law_integer_reads_back(n: i64)
    ensures
        spec_integer(decimal(n as int), 0) == Some((n, decimal(n as int).len() as int)),
        spec_datetime_end(decimal(n as int), 0).is_none(),
        spec_float_end(decimal(n as int), 0).is_none(),
{
    let s = decimal(n as int);
    let m: int = if n < 0 {
        -(n as int)
    } else {
        n as int
    };
    let start: int = if n < 0 {
        1
    } else {
        0
    };
    lemma_decimal_digits(m);
    let digits = decimal_digits(m);
    assert(s =~= (if n < 0 {
        seq![MINUS]
    } else {
        Seq::<u8>::empty()
    }) + digits);
    assert forall|i: int| start <= i < s.len() implies ByteClass::Digit.has(#[trigger] s[i]) by {
        assert(s[i] == digits[i - start]);
    }
    assert(s[start] == digits[0]);
    assert(sign_end(s, 0) == start);
    assert(s.subrange(start, s.len() as int) =~= digits);
    if m == 0 {
        assert(digits.len() == 1);
        assert(dec_end(s, start) == start + 1);
    } else {
        lemma_digits_cover(s, start, s.len() as int);
    }
    assert(dec_end(s, start) == s.len());
    crate::parser::trivia::lemma_span_bounds(s, s.len() as int, ByteClass::Digit);
    if s.len() > 4 {
        assert(ByteClass::Digit.has(s[4]) || s[4] == MINUS);
        if start == 0 {
            assert(ByteClass::Digit.has(s[4]));
        }
    }
    if s.len() > 2 {
        assert(ByteClass::Digit.has(s[2]) || start == 1);
    }
}

/// A string made anew reads back as itself.
pub proof fn law_string_value_reads_back(text: Seq<u8>)
    ensures
        spec_value(ValueView::of_string(text).body(), 0) == Ok::<(ValueView, int), crate::errors::FailureView>(
            (ValueView::of_string(text), quoted(text).len() as int),
        ),
{
    let q = quoted(text);
    law_string_reads_back(text);
    assert(q[0] == QUOTE);
    assert(q.subrange(0, q.len() as int) =~= q);
}

/// An integer made anew reads back as itself.
pub proof fn law_integer_value_reads_back(n: i64)
    ensures
        spec_value(ValueView::of_integer(n).body(), 0) == Ok::<(ValueView, int), crate::errors::FailureView>(
            (ValueView::of_integer(n), decimal(n as int).len() as int),
        ),
{
    let s = decimal(n as int);
    law_integer_reads_back(n);
    lemma_decimal_digits(if n < 0 {
        -(n as int)
    } else {
        n as int
    });
    assert(s[0] == MINUS || ByteClass::Digit.has(s[0]));
    assert(s.subrange(0, s.len() as int) =~= s);
    assert(spec_string(s, 0).is_none());
    assert(spec_boolean(s, 0).is_none());
}

/// A boolean made anew reads back as itself.
pub proof fn law_boolean_value_reads_back(b: bool)
    ensures
        spec_value(ValueView::of_boolean(b).body(), 0) == Ok::<(ValueView, int), crate::errors::FailureView>(
            (ValueView::of_boolean(b), boolean_text(b).len() as int),
        ),
{
    let s = boolean_text(b);
    assert(s.subrange(0, s.len() as int) =~= s);
    assert(spec_string(s, 0).is_none());
}

} // verus!

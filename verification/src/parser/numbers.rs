//! Booleans, integers, floats and date-times.

use crate::parser::trivia::{
    at, at_class, is_at, is_at_class, lemma_span_bounds, scan, span_end, ByteClass,
};
use crate::text::{
    COLON, DIGIT_0, DIGIT_9, DOT, LOWER_A, LOWER_B, LOWER_E, LOWER_F, LOWER_I, LOWER_L, LOWER_N,
    LOWER_O, LOWER_R, LOWER_S, LOWER_T, LOWER_U, LOWER_X, LOWER_Z, MINUS, PLUS, SPACE, UNDERSCORE,
    UPPER_A, UPPER_E, UPPER_F, UPPER_T, UPPER_Z,
};
use vstd::prelude::*;

verus! {

/// Tells whether the byte at `pos + off` exists and is `b`.
pub fn is_at_off(input: &[u8], pos: usize, off: usize, b: u8) -> (r: bool)
    requires
        pos <= input@.len(),
    ensures
        r == at(input@, pos + off, b),
        input@.len() <= usize::MAX,
{
    off < input.len() - pos && input[pos + off] == b
}

/// Tells whether the byte at `pos + off` exists and belongs to `class`.
pub fn is_class_off(input: &[u8], pos: usize, off: usize, class: ByteClass) -> (r: bool)
    requires
        pos <= input@.len(),
    ensures
        r == at_class(input@, pos + off, class),
        input@.len() <= usize::MAX,
{
    off < input.len() - pos && class.contains(input[pos + off])
}

/// `true` or `false` at `pos`, with where it ends.
pub open spec fn spec_boolean(s: Seq<u8>, pos: int) -> Option<(bool, int)> {
    if at(s, pos, LOWER_T) && at(s, pos + 1, LOWER_R) && at(s, pos + 2, LOWER_U) && at(
        s,
        pos + 3,
        LOWER_E,
    ) {
        Some((true, pos + 4))
    } else if at(s, pos, LOWER_F) && at(s, pos + 1, LOWER_A) && at(s, pos + 2, LOWER_L) && at(
        s,
        pos + 3,
        LOWER_S,
    ) && at(s, pos + 4, LOWER_E) {
        Some((false, pos + 5))
    } else {
        None
    }
}

/// Reads `true` or `false` at `pos`.
pub fn parse_boolean(input: &[u8], pos: usize) -> (r: Option<(bool, usize)>)
    requires
        pos <= input@.len(),
    ensures
        match r {
            Some((b, end)) => spec_boolean(input@, pos as int) == Some((b, end as int)) && pos
                < end <= input@.len(),
            None => spec_boolean(input@, pos as int).is_none(),
        },
{
    if is_at_off(input, pos, 0, LOWER_T) && is_at_off(input, pos, 1, LOWER_R) && is_at_off(
        input,
        pos,
        2,
        LOWER_U,
    ) && is_at_off(input, pos, 3, LOWER_E) {
        Some((true, pos + 4))
    } else if is_at_off(input, pos, 0, LOWER_F) && is_at_off(input, pos, 1, LOWER_A) && is_at_off(
        input,
        pos,
        2,
        LOWER_L,
    ) && is_at_off(input, pos, 3, LOWER_S) && is_at_off(input, pos, 4, LOWER_E) {
        Some((false, pos + 5))
    } else {
        None
    }
}

/// Where a run of digits of `class` ends in which single underscores may
/// stand between two digits; `pos` itself where no digit stands.
pub open spec fn digits_end(s: Seq<u8>, pos: int, class: ByteClass) -> int
    decreases s.len() - pos,
{
    if !at_class(s, pos, class) {
        pos
    } else if at_class(s, pos + 1, class) {
        digits_end(s, pos + 1, class)
    } else if at(s, pos + 1, UNDERSCORE) && at_class(s, pos + 2, class) {
        digits_end(s, pos + 2, class)
    } else {
        pos + 1
    }
}

/// Such a run ends inside the text, and behind its start where a digit
/// stands there.
pub proof fn lemma_digits_bounds(s: Seq<u8>, pos: int, class: ByteClass)
    requires
        0 <= pos <= s.len(),
    ensures
        pos <= digits_end(s, pos, class) <= s.len(),
        at_class(s, pos, class) <==> digits_end(s, pos, class) > pos,
    decreases s.len() - pos,
{
    if !at_class(s, pos, class) {
    } else if at_class(s, pos + 1, class) {
        lemma_digits_bounds(s, pos + 1, class);
    } else if at(s, pos + 1, UNDERSCORE) && at_class(s, pos + 2, class) {
        lemma_digits_bounds(s, pos + 2, class);
    }
}

/// Finds where a run of digits with underscores ends.
pub fn scan_digits(input: &[u8], pos: usize, class: ByteClass) -> (end: usize)
    requires
        pos <= input@.len(),
    ensures
        end == digits_end(input@, pos as int, class),
        pos <= end <= input@.len(),
        at_class(input@, pos as int, class) <==> end > pos,
{
    if !is_at_class(input, pos, class) {
        return pos;
    }
    let mut i: usize = pos;
    loop
        invariant
            pos <= i < input@.len(),
            input@.len() <= usize::MAX,
            at_class(input@, i as int, class),
            digits_end(input@, pos as int, class) == digits_end(input@, i as int, class),
        decreases input@.len() - i,
    {
        if is_class_off(input, i, 1, class) {
            i += 1;
        } else if is_at_off(input, i, 1, UNDERSCORE) && is_class_off(input, i, 2, class) {
            i += 2;
        } else {
            return i + 1;
        }
    }
}

/// The number a hexadecimal digit stands for; 0 for another byte.
pub open spec fn digit_value(b: u8) -> int {
    if DIGIT_0 <= b <= DIGIT_9 {
        b - DIGIT_0
    } else if LOWER_A <= b <= LOWER_F {
        b - LOWER_A + 10
    } else if UPPER_A <= b <= UPPER_F {
        b - UPPER_A + 10
    } else {
        0
    }
}

/// The number that the digits of `t` spell in base `radix`; underscores are
/// passed over.
pub open spec fn digits_value(t: Seq<u8>, radix: int) -> int
    decreases t.len(),
{
    if t.len() == 0 {
        0
    } else if t.last() == UNDERSCORE {
        digits_value(t.drop_last(), radix)
    } else {
        digits_value(t.drop_last(), radix) * radix + digit_value(t.last())
    }
}

/// The largest magnitude an integer can have: that of the least `i64`.
pub const INT_LIMIT: u64 = 0x8000_0000_0000_0000;

/// Computes the number a hexadecimal digit stands for.
pub fn digit_of(b: u8) -> (d: u64)
    ensures
        d == digit_value(b),
        d < 16,
{
    if DIGIT_0 <= b && b <= DIGIT_9 {
        (b - DIGIT_0) as u64
    } else if LOWER_A <= b && b <= LOWER_F {
        (b - LOWER_A + 10) as u64
    } else if UPPER_A <= b && b <= UPPER_F {
        (b - UPPER_A + 10) as u64
    } else {
        0
    }
}

/// Computes the number that `input[start..end]` spells in base `radix`, as
/// long as it does not exceed 2^63.
pub fn eval_digits(input: &[u8], start: usize, end: usize, radix: u64) -> (r: Option<u64>)
    requires
        start <= end <= input@.len(),
        2 <= radix <= 16,
    ensures
        match r {
            Some(v) => v == digits_value(input@.subrange(start as int, end as int), radix as int)
                && v <= INT_LIMIT,
            None => digits_value(input@.subrange(start as int, end as int), radix as int)
                > INT_LIMIT,
        },
{
    let mut acc: u64 = 0;
    let mut over = false;
    let mut i: usize = start;
    assert(input@.subrange(start as int, start as int) =~= Seq::empty());
    while i < end
        invariant
            start <= i <= end <= input@.len(),
            2 <= radix <= 16,
            acc <= INT_LIMIT,
            !over ==> acc == digits_value(input@.subrange(start as int, i as int), radix as int),
            over ==> digits_value(input@.subrange(start as int, i as int), radix as int)
                > INT_LIMIT,
        decreases end - i,
    {
        let b = input[i];
        proof {
            let t = input@.subrange(start as int, i as int + 1);
            assert(t.drop_last() =~= input@.subrange(start as int, i as int));
            assert(t.last() == b);
        }
        if b != UNDERSCORE {
            let d = digit_of(b);
            if !over {
                assert((acc as u128) * (radix as u128) <= 0x8_0000_0000_0000_0000u128)
                    by (nonlinear_arith)
                    requires
                        acc <= 0x8000_0000_0000_0000u64,
                        radix <= 16,
                ;
                let wide: u128 = (acc as u128) * (radix as u128) + (d as u128);
                if wide > INT_LIMIT as u128 {
                    over = true;
                } else {
                    acc = wide as u64;
                }
            } else {
                proof {
                    let v = digits_value(input@.subrange(start as int, i as int), radix as int);
                    assert(v * (radix as int) + (d as int) > INT_LIMIT) by (nonlinear_arith)
                        requires
                            v > INT_LIMIT,
                            radix >= 2,
                            d >= 0,
                    ;
                }
            }
        }
        i += 1;
    }
    if over {
        None
    } else {
        Some(acc)
    }
}

/// An integer written with a prefix (`0x`, `0o`, `0b`) at `pos`, the digits
/// being of `class` and in base `radix`.
pub open spec fn spec_prefixed(s: Seq<u8>, pos: int, class: ByteClass, radix: int) -> Option<
    (i64, int),
> {
    let end = digits_end(s, pos + 2, class);
    let magnitude = digits_value(s.subrange(pos + 2, end), radix);
    if end == pos + 2 || magnitude > i64::MAX {
        None
    } else {
        Some((magnitude as i64, end))
    }
}

/// Where the decimal integer part at `pos` ends: a lone `0`, or digits with
/// underscores that do not start with `0`; `pos` where no digit stands.
pub open spec fn dec_end(s: Seq<u8>, pos: int) -> int {
    if at(s, pos, DIGIT_0) {
        pos + 1
    } else {
        digits_end(s, pos, ByteClass::Digit)
    }
}

/// Where the sign at `pos` ends; `pos` where none stands.
pub open spec fn sign_end(s: Seq<u8>, pos: int) -> int {
    if at(s, pos, PLUS) || at(s, pos, MINUS) {
        pos + 1
    } else {
        pos
    }
}

/// The integer at `pos` with where it ends: a prefixed one without sign, or a
/// decimal one with an optional sign. `None` also where the number does not
/// fit an `i64`.
pub open spec fn spec_integer(s: Seq<u8>, pos: int) -> Option<(i64, int)> {
    if at(s, pos, DIGIT_0) && at(s, pos + 1, LOWER_X) {
        spec_prefixed(s, pos, ByteClass::HexDigit, 16)
    } else if at(s, pos, DIGIT_0) && at(s, pos + 1, LOWER_O) {
        spec_prefixed(s, pos, ByteClass::OctDigit, 8)
    } else if at(s, pos, DIGIT_0) && at(s, pos + 1, LOWER_B) {
        spec_prefixed(s, pos, ByteClass::BinDigit, 2)
    } else {
        let start = sign_end(s, pos);
        let end = dec_end(s, start);
        let magnitude = digits_value(s.subrange(start, end), 10);
        let number = if at(s, pos, MINUS) {
            -magnitude
        } else {
            magnitude
        };
        if end == start || number < i64::MIN || number > i64::MAX {
            None
        } else {
            Some((number as i64, end))
        }
    }
}

fn parse_prefixed(input: &[u8], pos: usize, class: ByteClass, radix: u64) -> (r: Option<
    (i64, usize),
>)
    requires
        pos + 2 <= input@.len(),
        input@.len() <= usize::MAX,
        2 <= radix <= 16,
    ensures
        match r {
            Some((v, end)) => spec_prefixed(input@, pos as int, class, radix as int) == Some(
                (v, end as int),
            ) && pos < end <= input@.len(),
            None => spec_prefixed(input@, pos as int, class, radix as int).is_none(),
        },
{
    let end = scan_digits(input, pos + 2, class);
    if end == pos + 2 {
        return None;
    }
    match eval_digits(input, pos + 2, end, radix) {
        Some(m) => {
            if m > 0x7FFF_FFFF_FFFF_FFFF {
                None
            } else {
                Some((m as i64, end))
            }
        },
        None => None,
    }
}

fn scan_sign(input: &[u8], pos: usize) -> (end: usize)
    requires
        pos <= input@.len(),
    ensures
        end == sign_end(input@, pos as int),
        pos <= end <= input@.len(),
{
    if is_at(input, pos, PLUS) || is_at(input, pos, MINUS) {
        pos + 1
    } else {
        pos
    }
}

fn scan_dec(input: &[u8], pos: usize) -> (end: usize)
    requires
        pos <= input@.len(),
    ensures
        end == dec_end(input@, pos as int),
        pos <= end <= input@.len(),
{
    if is_at(input, pos, DIGIT_0) {
        pos + 1
    } else {
        scan_digits(input, pos, ByteClass::Digit)
    }
}

/// Reads the integer at `pos`.
pub fn parse_integer(input: &[u8], pos: usize) -> (r: Option<(i64, usize)>)
    requires
        pos <= input@.len(),
    ensures
        match r {
            Some((v, end)) => spec_integer(input@, pos as int) == Some((v, end as int)) && pos
                < end <= input@.len(),
            None => spec_integer(input@, pos as int).is_none(),
        },
{
    if is_at(input, pos, DIGIT_0) && is_at_off(input, pos, 1, LOWER_X) {
        parse_prefixed(input, pos, ByteClass::HexDigit, 16)
    } else if is_at(input, pos, DIGIT_0) && is_at_off(input, pos, 1, LOWER_O) {
        parse_prefixed(input, pos, ByteClass::OctDigit, 8)
    } else if is_at(input, pos, DIGIT_0) && is_at_off(input, pos, 1, LOWER_B) {
        parse_prefixed(input, pos, ByteClass::BinDigit, 2)
    } else {
        let negative = is_at(input, pos, MINUS);
        let start = scan_sign(input, pos);
        let end = scan_dec(input, start);
        if end == start {
            return None;
        }
        match eval_digits(input, start, end, 10) {
            Some(m) => {
                if negative {
                    if m == INT_LIMIT {
                        Some((i64::MIN, end))
                    } else {
                        Some((-(m as i64), end))
                    }
                } else if m > 0x7FFF_FFFF_FFFF_FFFF {
                    None
                } else {
                    Some((m as i64, end))
                }
            },
            None => None,
        }
    }
}

/// Where the fraction at `pos` ends, a dot and digits; `pos` where none
/// stands.
pub open spec fn frac_end(s: Seq<u8>, pos: int) -> int {
    if at(s, pos, DOT) && at_class(s, pos + 1, ByteClass::Digit) {
        digits_end(s, pos + 1, ByteClass::Digit)
    } else {
        pos
    }
}

/// Where the exponent at `pos` ends, `e` or `E`, an optional sign and digits;
/// `pos` where none stands.
pub open spec fn exp_end(s: Seq<u8>, pos: int) -> int {
    if (at(s, pos, LOWER_E) || at(s, pos, UPPER_E)) && at_class(
        s,
        sign_end(s, pos + 1),
        ByteClass::Digit,
    ) {
        digits_end(s, sign_end(s, pos + 1), ByteClass::Digit)
    } else {
        pos
    }
}

/// Whether `inf` or `nan` stands at `pos`.
pub open spec fn special_float_at(s: Seq<u8>, pos: int) -> bool {
    ||| at(s, pos, LOWER_I) && at(s, pos + 1, LOWER_N) && at(s, pos + 2, LOWER_F)
    ||| at(s, pos, LOWER_N) && at(s, pos + 1, LOWER_A) && at(s, pos + 2, LOWER_N)
}

/// Where the float at `pos` ends: an optional sign, then `inf`, `nan`, or a
/// decimal integer part with a fraction, an exponent or both.
pub open spec fn spec_float_end(s: Seq<u8>, pos: int) -> Option<int> {
    let start = sign_end(s, pos);
    if special_float_at(s, start) {
        Some(start + 3)
    } else {
        let whole = dec_end(s, start);
        let end = exp_end(s, frac_end(s, whole));
        if whole == start || end == whole {
            None
        } else {
            Some(end)
        }
    }
}

fn scan_frac(input: &[u8], pos: usize) -> (end: usize)
    requires
        pos <= input@.len(),
    ensures
        end == frac_end(input@, pos as int),
        pos <= end <= input@.len(),
{
    if is_at(input, pos, DOT) && is_class_off(input, pos, 1, ByteClass::Digit) {
        scan_digits(input, pos + 1, ByteClass::Digit)
    } else {
        pos
    }
}

fn scan_exp(input: &[u8], pos: usize) -> (end: usize)
    requires
        pos <= input@.len(),
    ensures
        end == exp_end(input@, pos as int),
        pos <= end <= input@.len(),
{
    if is_at(input, pos, LOWER_E) || is_at(input, pos, UPPER_E) {
        let digits = scan_sign(input, pos + 1);
        if is_at_class(input, digits, ByteClass::Digit) {
            scan_digits(input, digits, ByteClass::Digit)
        } else {
            pos
        }
    } else {
        pos
    }
}

/// Finds where the float at `pos` ends.
pub fn parse_float(input: &[u8], pos: usize) -> (r: Option<usize>)
    requires
        pos <= input@.len(),
    ensures
        match r {
            Some(end) => spec_float_end(input@, pos as int) == Some(end as int) && pos < end
                <= input@.len(),
            None => spec_float_end(input@, pos as int).is_none(),
        },
{
    let start = scan_sign(input, pos);
    if (is_at_off(input, start, 0, LOWER_I) && is_at_off(input, start, 1, LOWER_N) && is_at_off(
        input,
        start,
        2,
        LOWER_F,
    )) || (is_at_off(input, start, 0, LOWER_N) && is_at_off(input, start, 1, LOWER_A)
        && is_at_off(input, start, 2, LOWER_N)) {
        return Some(start + 3);
    }
    let whole = scan_dec(input, start);
    if whole == start {
        return None;
    }
    let frac = scan_frac(input, whole);
    let end = scan_exp(input, frac);
    if end == whole {
        None
    } else {
        Some(end)
    }
}

/// Whether two digits stand at `pos`.
pub open spec fn two_digits(s: Seq<u8>, pos: int) -> bool {
    at_class(s, pos, ByteClass::Digit) && at_class(s, pos + 1, ByteClass::Digit)
}

/// Where the date at `pos` ends: four digits, two and two, with `-` between.
pub open spec fn date_end(s: Seq<u8>, pos: int) -> Option<int> {
    if two_digits(s, pos) && two_digits(s, pos + 2) && at(s, pos + 4, MINUS) && two_digits(
        s,
        pos + 5,
    ) && at(s, pos + 7, MINUS) && two_digits(s, pos + 8) {
        Some(pos + 10)
    } else {
        None
    }
}

/// Where the time at `pos` ends: three pairs of digits with `:` between, then
/// perhaps a dot and digits.
pub open spec fn time_end(s: Seq<u8>, pos: int) -> Option<int> {
    if two_digits(s, pos) && at(s, pos + 2, COLON) && two_digits(s, pos + 3) && at(
        s,
        pos + 5,
        COLON,
    ) && two_digits(s, pos + 6) {
        if at(s, pos + 8, DOT) && at_class(s, pos + 9, ByteClass::Digit) {
            Some(span_end(s, pos + 9, ByteClass::Digit))
        } else {
            Some(pos + 8)
        }
    } else {
        None
    }
}

/// Where the offset at `pos` ends: `Z`, `z`, or a sign and two pairs of
/// digits with `:` between; `pos` where none stands.
pub open spec fn offset_end(s: Seq<u8>, pos: int) -> int {
    if at(s, pos, UPPER_Z) || at(s, pos, LOWER_Z) {
        pos + 1
    } else if (at(s, pos, PLUS) || at(s, pos, MINUS)) && two_digits(s, pos + 1) && at(
        s,
        pos + 3,
        COLON,
    ) && two_digits(s, pos + 4) {
        pos + 6
    } else {
        pos
    }
}

/// Where the date-time at `pos` ends: a date, a date with a time and perhaps
/// an offset, or a time alone.
pub open spec fn spec_datetime_end(s: Seq<u8>, pos: int) -> Option<int> {
    match date_end(s, pos) {
        Some(d) => {
            if (at(s, d, UPPER_T) || at(s, d, LOWER_T) || at(s, d, SPACE)) && time_end(s, d + 1)
                is Some {
                Some(offset_end(s, time_end(s, d + 1).unwrap()))
            } else {
                Some(d)
            }
        },
        None => time_end(s, pos),
    }
}

fn has_two_digits(input: &[u8], pos: usize, off: usize) -> (r: bool)
    requires
        pos <= input@.len(),
        off < 100,
    ensures
        r == two_digits(input@, pos + off),
{
    is_class_off(input, pos, off, ByteClass::Digit) && is_class_off(
        input,
        pos,
        off + 1,
        ByteClass::Digit,
    )
}

fn scan_date(input: &[u8], pos: usize) -> (r: Option<usize>)
    requires
        pos <= input@.len(),
    ensures
        match r {
            Some(end) => date_end(input@, pos as int) == Some(end as int) && pos < end
                <= input@.len(),
            None => date_end(input@, pos as int).is_none(),
        },
{
    if has_two_digits(input, pos, 0) && has_two_digits(input, pos, 2) && is_at_off(
        input,
        pos,
        4,
        MINUS,
    ) && has_two_digits(input, pos, 5) && is_at_off(input, pos, 7, MINUS) && has_two_digits(
        input,
        pos,
        8,
    ) {
        Some(pos + 10)
    } else {
        None
    }
}

fn scan_time(input: &[u8], pos: usize) -> (r: Option<usize>)
    requires
        pos <= input@.len(),
    ensures
        match r {
            Some(end) => time_end(input@, pos as int) == Some(end as int) && pos < end
                <= input@.len(),
            None => time_end(input@, pos as int).is_none(),
        },
{
    if has_two_digits(input, pos, 0) && is_at_off(input, pos, 2, COLON) && has_two_digits(
        input,
        pos,
        3,
    ) && is_at_off(input, pos, 5, COLON) && has_two_digits(input, pos, 6) {
        if is_at_off(input, pos, 8, DOT) && is_class_off(input, pos, 9, ByteClass::Digit) {
            Some(scan(input, pos + 9, ByteClass::Digit))
        } else {
            Some(pos + 8)
        }
    } else {
        None
    }
}

fn scan_offset(input: &[u8], pos: usize) -> (end: usize)
    requires
        pos <= input@.len(),
    ensures
        end == offset_end(input@, pos as int),
        pos <= end <= input@.len(),
{
    if is_at(input, pos, UPPER_Z) || is_at(input, pos, LOWER_Z) {
        pos + 1
    } else if (is_at(input, pos, PLUS) || is_at(input, pos, MINUS)) && has_two_digits(
        input,
        pos,
        1,
    ) && is_at_off(input, pos, 3, COLON) && has_two_digits(input, pos, 4) {
        pos + 6
    } else {
        pos
    }
}

/// Finds where the date-time at `pos` ends.
pub fn parse_datetime(input: &[u8], pos: usize) -> (r: Option<usize>)
    requires
        pos <= input@.len(),
    ensures
        match r {
            Some(end) => spec_datetime_end(input@, pos as int) == Some(end as int) && pos < end
                <= input@.len(),
            None => spec_datetime_end(input@, pos as int).is_none(),
        },
{
    match scan_date(input, pos) {
        Some(d) => {
            if is_at(input, d, UPPER_T) || is_at(input, d, LOWER_T) || is_at(input, d, SPACE) {
                match scan_time(input, d + 1) {
                    Some(t) => Some(scan_offset(input, t)),
                    None => Some(d),
                }
            } else {
                Some(d)
            }
        },
        None => scan_time(input, pos),
    }
}

} // verus!

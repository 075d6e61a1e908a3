//! Writing keys and scalars anew: from a name or a number to its text.

use crate::decor::{Decor, DecorView};
use crate::key::{Key, KeyStyle, KeyView};
use crate::parser::trivia::ByteClass;
use crate::text::{
    copy_bytes, BACKSLASH, DIGIT_0, LOWER_A, LOWER_E, LOWER_F, LOWER_L, LOWER_R, LOWER_S,
    LOWER_T, LOWER_U, MINUS, QUOTE, UPPER_A,
};
use crate::value::{Value, ValueView};
use vstd::prelude::*;

verus! {

/// Whether a name can be written as a bare key: it is not empty and holds
/// only letters, digits, `_` and `-`.
pub open spec fn is_bare(name: Seq<u8>) -> bool {
    name.len() > 0 && forall|i: int| 0 <= i < name.len() ==> ByteClass::BareKey.has(#[trigger] name[i])
}

/// The digit, as text, of a number below 16; the letters are capitals.
pub open spec fn hex_digit(n: int) -> u8 {
    if n < 10 {
        (DIGIT_0 + n) as u8
    } else {
        (UPPER_A + n - 10) as u8
    }
}

/// How a byte is written inside a basic string: the double quote and the
/// backslash behind a backslash, a control byte other than the tab as
/// `\u00XX`, every other byte as it is.
pub open spec fn escape_byte(b: u8) -> Seq<u8> {
    if b == QUOTE || b == BACKSLASH {
        seq![BACKSLASH, b]
    } else if ByteClass::BasicChar.has(b) {
        seq![b]
    } else {
        seq![BACKSLASH, LOWER_U, DIGIT_0, DIGIT_0, hex_digit(b as int / 16), hex_digit(b as int % 16)]
    }
}

/// How a text is written inside a basic string.
pub open spec fn escaped(text: Seq<u8>) -> Seq<u8>
    decreases text.len(),
{
    if text.len() == 0 {
        Seq::empty()
    } else {
        escaped(text.drop_last()) + escape_byte(text.last())
    }
}

/// A text as a basic string, between double quotes.
pub open spec fn quoted(text: Seq<u8>) -> Seq<u8> {
    seq![QUOTE] + escaped(text) + seq![QUOTE]
}

/// A number that is not negative, in decimal digits.
pub open spec fn decimal_digits(m: int) -> Seq<u8>
    decreases m,
{
    if m < 10 {
        seq![(DIGIT_0 + (if m < 0 {
            0
        } else {
            m
        })) as u8]
    } else {
        decimal_digits(m / 10).push((DIGIT_0 + m % 10) as u8)
    }
}

/// A number in decimal digits, with `-` before a negative one.
pub open spec fn decimal(n: int) -> Seq<u8> {
    if n < 0 {
        seq![MINUS] + decimal_digits(-n)
    } else {
        decimal_digits(n)
    }
}

/// `true` or `false`.
pub open spec fn boolean_text(b: bool) -> Seq<u8> {
    if b {
        seq![LOWER_T, LOWER_R, LOWER_U, LOWER_E]
    } else {
        seq![LOWER_F, LOWER_A, LOWER_L, LOWER_S, LOWER_E]
    }
}

/// Tells whether a name can be written as a bare key.
pub fn can_be_bare(name: &[u8]) -> (r: bool)
    ensures
        r == is_bare(name@),
{
    if name.len() == 0 {
        return false;
    }
    let mut i: usize = 0;
    while i < name.len()
        invariant
            0 <= i <= name.len(),
            forall|k: int| 0 <= k < i ==> ByteClass::BareKey.has(#[trigger] name@[k]),
        decreases name.len() - i,
    {
        if !ByteClass::BareKey.contains(name[i]) {
            return false;
        }
        i += 1;
    }
    true
}

fn make_hex_digit(n: u8) -> (d: u8)
    requires
        n < 16,
    ensures
        d == hex_digit(n as int),
{
    if n < 10 {
        DIGIT_0 + n
    } else {
        UPPER_A + n - 10
    }
}

/// Writes a text as a basic string, between double quotes.
pub fn quote(text: &[u8]) -> (out: Vec<u8>)
    ensures
        out@ == quoted(text@),
{
    let mut out: Vec<u8> = Vec::new();
    out.push(QUOTE);
    let mut i: usize = 0;
    proof {
        assert(text@.subrange(0, 0) =~= Seq::empty());
        assert(out@ =~= seq![QUOTE] + escaped(text@.subrange(0, 0)));
    }
    while i < text.len()
        invariant
            0 <= i <= text.len(),
            out@ == seq![QUOTE] + escaped(text@.subrange(0, i as int)),
        decreases text.len() - i,
    {
        let b = text[i];
        let ghost before = out@;
        if b == QUOTE || b == BACKSLASH {
            out.push(BACKSLASH);
            out.push(b);
        } else if ByteClass::BasicChar.contains(b) {
            out.push(b);
        } else {
            out.push(BACKSLASH);
            out.push(LOWER_U);
            out.push(DIGIT_0);
            out.push(DIGIT_0);
            out.push(make_hex_digit(b / 16));
            out.push(make_hex_digit(b % 16));
        }
        proof {
            let next = text@.subrange(0, i as int + 1);
            assert(next.drop_last() =~= text@.subrange(0, i as int));
            assert(next.last() == b);
            assert(out@ =~= before + escape_byte(b));
            assert(out@ =~= seq![QUOTE] + escaped(next));
        }
        i += 1;
    }
    proof {
        assert(text@.subrange(0, text@.len() as int) =~= text@);
    }
    out.push(QUOTE);
    out
}

/// Appends the decimal digits of `m` to `out`.
pub fn push_decimal_digits(m: u64, out: &mut Vec<u8>)
    ensures
        final(out)@ == old(out)@ + decimal_digits(m as int),
    decreases m,
{
    if m < 10 {
        out.push(DIGIT_0 + m as u8);
        assert(final(out)@ =~= old(out)@ + decimal_digits(m as int));
    } else {
        push_decimal_digits(m / 10, out);
        out.push(DIGIT_0 + (m % 10) as u8);
        assert(final(out)@ =~= old(out)@ + decimal_digits(m as int));
    }
}

/// Writes a number in decimal digits.
pub fn write_decimal(n: i64) -> (out: Vec<u8>)
    ensures
        out@ == decimal(n as int),
{
    let mut out: Vec<u8> = Vec::new();
    if n < 0 {
        out.push(MINUS);
        let magnitude: u64 = if n == i64::MIN {
            0x8000_0000_0000_0000u64
        } else {
            (-n) as u64
        };
        push_decimal_digits(magnitude, &mut out);
    } else {
        push_decimal_digits(n as u64, &mut out);
        assert(out@ =~= decimal(n as int));
    }
    out
}

impl KeyView {
    /// The key that a name is written as: bare where that can be, else
    /// between double quotes; without decoration.
    pub open spec fn of_name(name: Seq<u8>) -> KeyView {
        KeyView {
            decor: DecorView::empty(),
            raw: if is_bare(name) {
                name
            } else {
                quoted(name)
            },
            name,
            style: if is_bare(name) {
                KeyStyle::Bare
            } else {
                KeyStyle::Basic
            },
        }
    }
}

impl Key {
    /// Writes a key for a name: bare where that can be, else between double
    /// quotes.
    pub fn new(name: &[u8]) -> (k: Key)
        ensures
            k@ == KeyView::of_name(name@),
    {
        if can_be_bare(name) {
            Key {
                decor: Decor::empty(),
                raw: copy_bytes(name),
                name: copy_bytes(name),
                style: KeyStyle::Bare,
            }
        } else {
            Key {
                decor: Decor::empty(),
                raw: quote(name),
                name: copy_bytes(name),
                style: KeyStyle::Basic,
            }
        }
    }

    /// The same key with the decoration `d`.
    pub fn decorated(self, d: Decor) -> (k: Key)
        ensures
            k@ == (KeyView { decor: d@, ..self@ }),
    {
        Key { decor: d, raw: self.raw, name: self.name, style: self.style }
    }
}

impl ValueView {
    /// The string `text`, written as a basic string.
    pub open spec fn of_string(text: Seq<u8>) -> ValueView {
        ValueView::String { decor: DecorView::empty(), raw: quoted(text), value: text }
    }

    /// The integer `n`, written in decimal digits.
    pub open spec fn of_integer(n: i64) -> ValueView {
        ValueView::Integer { decor: DecorView::empty(), raw: decimal(n as int), value: n }
    }

    /// The boolean `b`.
    pub open spec fn of_boolean(b: bool) -> ValueView {
        ValueView::Boolean { decor: DecorView::empty(), raw: boolean_text(b), value: b }
    }
}

impl Value {
    /// The string `text`, written as a basic string, without decoration.
    pub fn string(text: &[u8]) -> (v: Value)
        ensures
            v@ == ValueView::of_string(text@),
            v@.wf(),
    {
        Value::String { decor: Decor::empty(), raw: quote(text), value: copy_bytes(text) }
    }

    /// The integer `n`, written in decimal digits, without decoration.
    pub fn integer(n: i64) -> (v: Value)
        ensures
            v@ == ValueView::of_integer(n),
            v@.wf(),
    {
        Value::Integer { decor: Decor::empty(), raw: write_decimal(n), value: n }
    }

    /// The boolean `b`, without decoration.
    pub fn boolean(b: bool) -> (v: Value)
        ensures
            v@ == ValueView::of_boolean(b),
            v@.wf(),
    {
        let mut raw: Vec<u8> = Vec::new();
        if b {
            raw.push(LOWER_T);
            raw.push(LOWER_R);
            raw.push(LOWER_U);
            raw.push(LOWER_E);
        } else {
            raw.push(LOWER_F);
            raw.push(LOWER_A);
            raw.push(LOWER_L);
            raw.push(LOWER_S);
            raw.push(LOWER_E);
        }
        assert(raw@ =~= boolean_text(b));
        Value::Boolean { decor: Decor::empty(), raw, value: b }
    }

    /// The text that a string stands for, where the value is a string.
    pub fn as_str(&self) -> (r: Option<&[u8]>)
        ensures
            match r {
                Some(text) => self@ matches ValueView::String { value, .. } && text@ == value,
                None => !(self@ is String),
            },
    {
        match self {
            Value::String { value, .. } => Some(value.as_slice()),
            _ => None,
        }
    }

    /// The number, where the value is an integer.
    pub fn as_integer(&self) -> (r: Option<i64>)
        ensures
            match r {
                Some(n) => self@ matches ValueView::Integer { value, .. } && n == value,
                None => !(self@ is Integer),
            },
    {
        match self {
            Value::Integer { value, .. } => Some(*value),
            _ => None,
        }
    }

    /// The truth value, where the value is a boolean.
    pub fn as_bool(&self) -> (r: Option<bool>)
        ensures
            match r {
                Some(b) => self@ matches ValueView::Boolean { value, .. } && b == value,
                None => !(self@ is Boolean),
            },
    {
        match self {
            Value::Boolean { value, .. } => Some(*value),
            _ => None,
        }
    }

    /// The text of a float or of a date-time, as it is written.
    pub fn as_raw(&self) -> (r: Option<&[u8]>)
        ensures
            match r {
                Some(text) => match self@ {
                    ValueView::Float { raw, .. } => text@ == raw,
                    ValueView::Datetime { raw, .. } => text@ == raw,
                    _ => false,
                },
                None => !(self@ is Float) && !(self@ is Datetime),
            },
    {
        match self {
            Value::Float { raw, .. } => Some(raw.as_slice()),
            Value::Datetime { raw, .. } => Some(raw.as_slice()),
            _ => None,
        }
    }

    /// The array, where the value is one.
    pub fn as_array(&self) -> (r: Option<&crate::value::Array>)
        ensures
            match r {
                Some(a) => self@ == ValueView::Array(a@),
                None => !(self@ is Array),
            },
    {
        match self {
            Value::Array(a) => Some(a),
            _ => None,
        }
    }

    /// The inline table, where the value is one.
    pub fn as_inline_table(&self) -> (r: Option<&crate::value::InlineTable>)
        ensures
            match r {
                Some(t) => self@ == ValueView::InlineTable(t@),
                None => !(self@ is InlineTable),
            },
    {
        match self {
            Value::InlineTable(t) => Some(t),
            _ => None,
        }
    }
}

} // verus!

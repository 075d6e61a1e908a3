//! Values: scalars, arrays and inline tables.

use crate::decor::{Decor, DecorView};
use crate::errors::{CustomError, CustomErrorView, Expected, Failure, FailureView};
use crate::key::{Key, KeyView};
use crate::parser::array::{array_from_vec, spec_array_from};
use crate::parser::numbers::{
    parse_boolean, parse_datetime, parse_float, parse_integer, spec_boolean, spec_datetime_end,
    spec_float_end, spec_integer,
};
use crate::parser::strings::{lemma_key_bounds, parse_key, parse_string, spec_key, spec_string};
use crate::parser::trivia::{
    at, is_at, lemma_span_bounds, lemma_trivia_bounds, scan, skip_trivia, span_end, trivia_end,
    ByteClass,
};
use crate::text::{
    bytes_eq, copy_bytes, copy_range, BRACE_CLOSE, BRACE_OPEN, BRACKET_CLOSE, BRACKET_OPEN, COMMA, EQUALS,
};
use crate::value::{
    entries_view, render_entries, render_values, values_view, Array, ArrayView, InlineEntry,
    InlineEntryView, InlineTable, InlineTableView, Value, ValueView,
};
use vstd::prelude::*;

verus! {

/// What a rule yields: a value and where it ends, or why there is none.
pub type Outcome<T> = Result<(T, int), FailureView>;

/// The rule found nothing it asks for at `at`.
pub open spec fn no_match<T>(at: int, expected: Expected) -> Outcome<T> {
    Err(FailureView::NoMatch { at, expected })
}

/// Whether what a parser returned is what the grammar yields.
pub open spec fn agrees<T: View>(r: Result<(T, usize), Failure>, m: Outcome<T::V>) -> bool {
    match r {
        Ok((v, end)) => m == Ok::<(T::V, int), FailureView>((v@, end as int)),
        Err(f) => m == Err::<(T::V, int), FailureView>(f@),
    }
}

/// The scalar at `pos` and where it ends. The kinds are tried in this order:
/// string, boolean, date-time, float, integer.
pub open spec fn spec_scalar(s: Seq<u8>, pos: int) -> Option<(ValueView, int)> {
    let none = DecorView::empty();
    if let Some((text, end)) = spec_string(s, pos) {
        Some((ValueView::String { decor: none, raw: s.subrange(pos, end), value: text }, end))
    } else if let Some((b, end)) = spec_boolean(s, pos) {
        Some((ValueView::Boolean { decor: none, raw: s.subrange(pos, end), value: b }, end))
    } else if let Some(end) = spec_datetime_end(s, pos) {
        Some((ValueView::Datetime { decor: none, raw: s.subrange(pos, end) }, end))
    } else if let Some(end) = spec_float_end(s, pos) {
        Some((ValueView::Float { decor: none, raw: s.subrange(pos, end) }, end))
    } else if let Some((n, end)) = spec_integer(s, pos) {
        Some((ValueView::Integer { decor: none, raw: s.subrange(pos, end), value: n }, end))
    } else {
        None
    }
}

/// Whether one of `entries` has the name `name`.
pub open spec fn has_name(entries: Seq<InlineEntryView>, name: Seq<u8>) -> bool {
    exists|i: int| 0 <= i < entries.len() && (#[trigger] entries[i]).key.name == name
}

/// The value at `pos`, without decoration, and where it ends.
pub open spec fn spec_value(s: Seq<u8>, pos: int) -> Outcome<ValueView>
    decreases s.len() - pos, 1int,
{
    if at(s, pos, BRACKET_OPEN) {
        spec_array(s, pos)
    } else if at(s, pos, BRACE_OPEN) {
        spec_inline_table(s, pos)
    } else {
        match spec_scalar(s, pos) {
            Some((v, end)) => Ok((v, end)),
            None => no_match(pos, Expected::Value),
        }
    }
}

/// The array whose `[` is at `pos`: its elements, whatever stands before the
/// `]`, and the `]`.
pub open spec fn spec_array(s: Seq<u8>, pos: int) -> Outcome<ValueView>
    decreases s.len() - pos, 0int,
{
    if !at(s, pos, BRACKET_OPEN) {
        no_match(pos, Expected::Value)
    } else {
        match spec_array_items(s, pos + 1, Seq::empty()) {
            Ok(((vs, comma), end)) => {
                let close = trivia_end(s, end);
                if at(s, close, BRACKET_CLOSE) {
                    match spec_array_from(vs, comma, s.subrange(end, close)) {
                        Ok(a) => Ok((ValueView::Array(a), close + 1)),
                        Err(error) => Err(FailureView::Abort { error }),
                    }
                } else {
                    no_match(close, Expected::ArrayClose)
                }
            },
            Err(f) => Err(f),
        }
    }
}

/// The elements of an array from `pos` on, behind those in `acc`: values
/// separated by commas, the last of which may be followed by one. The flag
/// tells whether the elements end with a comma. Elements are read as long as
/// one is found; text that is no element ends them without being taken.
pub open spec fn spec_array_items(s: Seq<u8>, pos: int, acc: Seq<ValueView>) -> Outcome<
    (Seq<ValueView>, bool),
>
    decreases s.len() - pos, 3int,
{
    match spec_array_value(s, pos) {
        Ok((v, end)) => {
            if pos <= end && at(s, end, COMMA) {
                spec_array_items(s, end + 1, acc.push(v))
            } else {
                Ok(((acc.push(v), false), end))
            }
        },
        Err(FailureView::NoMatch { .. }) => Ok(((acc, acc.len() > 0), pos)),
        Err(f) => Err(f),
    }
}

/// One element of an array at `pos`: a value with the whitespace, line breaks
/// and comments on both sides as its decoration.
pub open spec fn spec_array_value(s: Seq<u8>, pos: int) -> Outcome<ValueView>
    decreases s.len() - pos, 2int,
{
    if pos < 0 || pos > s.len() {
        no_match(pos, Expected::Value)
    } else {
        let start = trivia_end(s, pos);
        proof {
            lemma_trivia_bounds(s, pos);
        }
        match spec_value(s, start) {
            Ok((v, end)) => {
                let stop = trivia_end(s, end);
                Ok(
                    (
                        v.decorated(
                            DecorView {
                                prefix: s.subrange(pos, start),
                                suffix: s.subrange(end, stop),
                            },
                        ),
                        stop,
                    ),
                )
            },
            Err(f) => Err(f),
        }
    }
}

/// The inline table whose `{` is at `pos`.
pub open spec fn spec_inline_table(s: Seq<u8>, pos: int) -> Outcome<ValueView>
    decreases s.len() - pos, 0int,
{
    if !at(s, pos, BRACE_OPEN) {
        no_match(pos, Expected::Value)
    } else {
        let first = span_end(s, pos + 1, ByteClass::Whitespace);
        if at(s, first, BRACE_CLOSE) {
            Ok(
                (
                    ValueView::InlineTable(
                        InlineTableView {
                            entries: Seq::empty(),
                            preamble: s.subrange(pos + 1, first),
                            decor: DecorView::empty(),
                        },
                    ),
                    first + 1,
                ),
            )
        } else {
            spec_inline_items(s, pos + 1, Seq::empty())
        }
    }
}

/// One entry of an inline table at `pos`: a key, `=` and a value, with the
/// whitespace around key and value as their decoration.
pub open spec fn spec_inline_entry(s: Seq<u8>, pos: int) -> Outcome<InlineEntryView>
    decreases s.len() - pos, 2int,
{
    if pos < 0 || pos > s.len() {
        no_match(pos, Expected::Key)
    } else {
        let k0 = span_end(s, pos, ByteClass::Whitespace);
        match spec_key(s, k0) {
            None => no_match(k0, Expected::Key),
            Some((key, k1)) => {
                let eq = span_end(s, k1, ByteClass::Whitespace);
                if !at(s, eq, EQUALS) {
                    no_match(eq, Expected::Equals)
                } else {
                    let v0 = span_end(s, eq + 1, ByteClass::Whitespace);
                    proof {
                        lemma_span_bounds(s, pos, ByteClass::Whitespace);
                        lemma_key_bounds(s, k0);
                        lemma_span_bounds(s, k1, ByteClass::Whitespace);
                        lemma_span_bounds(s, eq + 1, ByteClass::Whitespace);
                    }
                    match spec_value(s, v0) {
                        Err(f) => Err(f),
                        Ok((v, v1)) => {
                            let stop = span_end(s, v1, ByteClass::Whitespace);
                            Ok(
                                (
                                    InlineEntryView {
                                        key: KeyView {
                                            decor: DecorView {
                                                prefix: s.subrange(pos, k0),
                                                suffix: s.subrange(k1, eq),
                                            },
                                            ..key
                                        },
                                        value: v.decorated(
                                            DecorView {
                                                prefix: s.subrange(eq + 1, v0),
                                                suffix: s.subrange(v1, stop),
                                            },
                                        ),
                                    },
                                    stop,
                                ),
                            )
                        },
                    }
                }
            },
        }
    }
}

/// The entries of an inline table from `pos` on, behind those in `acc`, up to
/// and with the closing `}`. A name that an earlier entry has is refused
/// where it is read.
pub open spec fn spec_inline_items(s: Seq<u8>, pos: int, acc: Seq<InlineEntryView>) -> Outcome<
    ValueView,
>
    decreases s.len() - pos, 3int,
{
    match spec_inline_entry(s, pos) {
        Err(f) => Err(f),
        Ok((entry, stop)) => {
            if has_name(acc, entry.key.name) {
                Err(
                    FailureView::Abort {
                        error: CustomErrorView::DuplicateKey { key: entry.key.name },
                    },
                )
            } else if pos <= stop && at(s, stop, COMMA) {
                spec_inline_items(s, stop + 1, acc.push(entry))
            } else if at(s, stop, BRACE_CLOSE) {
                Ok(
                    (
                        ValueView::InlineTable(
                            InlineTableView {
                                entries: acc.push(entry),
                                preamble: Seq::empty(),
                                decor: DecorView::empty(),
                            },
                        ),
                        stop + 1,
                    ),
                )
            } else {
                no_match(stop, Expected::InlineTableClose)
            }
        },
    }
}

/// Changing the decoration of a value changes nothing else.
pub proof fn lemma_decorated(v: ValueView, d: DecorView)
    ensures
        v.decorated(d).decor() == d,
        v.decorated(d).body() == v.body(),
        v.decorated(d).kind() == v.kind(),
        v.decorated(d).wf() == v.wf(),
{
}

/// The text of a sequence with one more value.
pub proof fn lemma_render_values_push(vs: Seq<ValueView>, v: ValueView)
    ensures
        render_values(vs.push(v)) == if vs.len() == 0 {
            v.render()
        } else {
            render_values(vs) + seq![COMMA] + v.render()
        },
{
    assert(vs.push(v).drop_last() =~= vs);
}

/// The text of a sequence with one more entry.
pub proof fn lemma_render_entries_push(es: Seq<InlineEntryView>, e: InlineEntryView)
    ensures
        render_entries(es.push(e)) == if es.len() == 0 {
            e.render()
        } else {
            render_entries(es) + seq![COMMA] + e.render()
        },
{
    assert(es.push(e).drop_last() =~= es);
}

/// Reads the scalar at `pos`.
pub fn parse_scalar(input: &[u8], pos: usize) -> (r: Option<(Value, usize)>)
    requires
        pos <= input@.len(),
    ensures
        match r {
            Some((v, end)) => {
                &&& spec_scalar(input@, pos as int) == Some((v@, end as int))
                &&& pos < end <= input@.len()
                &&& v@.decor() == DecorView::empty()
                &&& v@.body() == input@.subrange(pos as int, end as int)
                &&& v@.wf()
            },
            None => spec_scalar(input@, pos as int).is_none(),
        },
{
    if let Some((text, end)) = parse_string(input, pos) {
        return Some(
            (Value::String { decor: Decor::empty(), raw: copy_range(input, pos, end), value: text }, end),
        );
    }
    if let Some((b, end)) = parse_boolean(input, pos) {
        return Some(
            (Value::Boolean { decor: Decor::empty(), raw: copy_range(input, pos, end), value: b }, end),
        );
    }
    if let Some(end) = parse_datetime(input, pos) {
        return Some((Value::Datetime { decor: Decor::empty(), raw: copy_range(input, pos, end) }, end));
    }
    if let Some(end) = parse_float(input, pos) {
        return Some((Value::Float { decor: Decor::empty(), raw: copy_range(input, pos, end) }, end));
    }
    if let Some((n, end)) = parse_integer(input, pos) {
        return Some(
            (Value::Integer { decor: Decor::empty(), raw: copy_range(input, pos, end), value: n }, end),
        );
    }
    None
}

/// Reads the value at `pos`. The value comes without decoration; its text is
/// what was read.
pub fn parse_value(input: &[u8], pos: usize) -> (r: Result<(Value, usize), Failure>)
    requires
        pos <= input@.len(),
    ensures
        agrees(r, spec_value(input@, pos as int)),
        r matches Ok((v, end)) ==> {
            &&& pos < end <= input@.len()
            &&& v@.decor() == DecorView::empty()
            &&& v@.body() == input@.subrange(pos as int, end as int)
            &&& v@.wf()
        },
    decreases input@.len() - pos, 1int,
{
    if is_at(input, pos, BRACKET_OPEN) {
        parse_array(input, pos)
    } else if is_at(input, pos, BRACE_OPEN) {
        parse_inline_table(input, pos)
    } else {
        match parse_scalar(input, pos) {
            Some((v, end)) => Ok((v, end)),
            None => Err(Failure::NoMatch { at: pos, expected: Expected::Value }),
        }
    }
}

/// Reads the array whose `[` is at `pos`.
pub fn parse_array(input: &[u8], pos: usize) -> (r: Result<(Value, usize), Failure>)
    requires
        pos <= input@.len(),
    ensures
        agrees(r, spec_array(input@, pos as int)),
        r matches Ok((v, end)) ==> {
            &&& pos < end <= input@.len()
            &&& v@.decor() == DecorView::empty()
            &&& v@.body() == input@.subrange(pos as int, end as int)
            &&& v@.wf()
        },
    decreases input@.len() - pos, 0int,
{
    if !is_at(input, pos, BRACKET_OPEN) {
        return Err(Failure::NoMatch { at: pos, expected: Expected::Value });
    }
    match parse_array_items(input, pos + 1) {
        Ok((values, comma, end)) => {
            let close = skip_trivia(input, end);
            if is_at(input, close, BRACKET_CLOSE) {
                let trailing = copy_range(input, end, close);
                let ghost vs = values_view(values@);
                match array_from_vec(values, comma, trailing.as_slice()) {
                    Ok(a) => {
                        let v = Value::Array(a);
                        proof {
                            let s = input@;
                            let p = pos as int;
                            let tail = if comma {
                                seq![COMMA]
                            } else {
                                Seq::<u8>::empty()
                            };
                            assert(s.subrange(p, close + 1) =~= seq![BRACKET_OPEN] + s.subrange(
                                p + 1,
                                end as int,
                            ) + s.subrange(end as int, close as int) + seq![BRACKET_CLOSE]);
                            assert(v@.body() =~= seq![BRACKET_OPEN] + (render_values(vs) + tail)
                                + s.subrange(end as int, close as int) + seq![BRACKET_CLOSE]);
                        }
                        Ok((v, close + 1))
                    },
                    Err(error) => Err(Failure::Abort { error }),
                }
            } else {
                Err(Failure::NoMatch { at: close, expected: Expected::ArrayClose })
            }
        },
        Err(f) => Err(f),
    }
}

/// Reads the elements of an array from `pos` on: the values, whether they end
/// with a comma, and where they end.
pub fn parse_array_items(input: &[u8], pos: usize) -> (r: Result<(Vec<Value>, bool, usize), Failure>)
    requires
        pos <= input@.len(),
    ensures
        match r {
            Ok((values, comma, end)) => {
                &&& spec_array_items(input@, pos as int, Seq::empty()) == Ok::<
                    ((Seq<ValueView>, bool), int),
                    FailureView,
                >(((values_view(values@), comma), end as int))
                &&& pos <= end <= input@.len()
                &&& input@.subrange(pos as int, end as int) == render_values(values_view(values@))
                    + (if comma {
                    seq![COMMA]
                } else {
                    Seq::<u8>::empty()
                })
                &&& forall|i: int| 0 <= i < values@.len() ==> (#[trigger] values@[i])@.wf()
            },
            Err(f) => spec_array_items(input@, pos as int, Seq::empty()) == Err::<
                ((Seq<ValueView>, bool), int),
                FailureView,
            >(f@),
        },
    decreases input@.len() - pos, 3int,
{
    let mut values: Vec<Value> = Vec::new();
    let mut i: usize = pos;
    proof {
        assert(values_view(values@) =~= Seq::empty());
        assert(input@.subrange(pos as int, pos as int) =~= Seq::empty());
    }
    loop
        invariant
            pos <= i <= input@.len(),
            spec_array_items(input@, pos as int, Seq::empty()) == spec_array_items(
                input@,
                i as int,
                values_view(values@),
            ),
            input@.subrange(pos as int, i as int) =~= render_values(values_view(values@)) + (
            if values@.len() > 0 {
                seq![COMMA]
            } else {
                Seq::<u8>::empty()
            }),
            forall|k: int| 0 <= k < values@.len() ==> (#[trigger] values@[k])@.wf(),
        decreases input@.len() - i,
    {
        let ghost before = values_view(values@);
        match parse_array_value(input, i) {
            Ok((v, end)) => {
                proof {
                    lemma_render_values_push(before, v@);
                    assert(input@.subrange(pos as int, end as int) =~= input@.subrange(
                        pos as int,
                        i as int,
                    ) + input@.subrange(i as int, end as int));
                }
                values.push(v);
                proof {
                    assert(values_view(values@) =~= before.push(v@));
                }
                if is_at(input, end, COMMA) {
                    proof {
                        assert(input@.subrange(pos as int, end + 1) =~= input@.subrange(
                            pos as int,
                            end as int,
                        ) + seq![COMMA]);
                    }
                    i = end + 1;
                } else {
                    return Ok((values, false, end));
                }
            },
            Err(Failure::NoMatch { .. }) => {
                let comma = values.len() > 0;
                return Ok((values, comma, i));
            },
            Err(f) => {
                return Err(f);
            },
        }
    }
}

/// Reads one element of an array at `pos`: a value and, as its decoration,
/// the whitespace, line breaks and comments on both sides.
pub fn parse_array_value(input: &[u8], pos: usize) -> (r: Result<(Value, usize), Failure>)
    requires
        pos <= input@.len(),
    ensures
        agrees(r, spec_array_value(input@, pos as int)),
        r matches Ok((v, end)) ==> {
            &&& pos < end <= input@.len()
            &&& v@.render() == input@.subrange(pos as int, end as int)
            &&& v@.wf()
        },
    decreases input@.len() - pos, 2int,
{
    let start = skip_trivia(input, pos);
    match parse_value(input, start) {
        Ok((v, end)) => {
            let stop = skip_trivia(input, end);
            let decor = Decor {
                prefix: copy_range(input, pos, start),
                suffix: copy_range(input, end, stop),
            };
            proof {
                lemma_decorated(v@, decor@);
                assert(input@.subrange(pos as int, stop as int) =~= input@.subrange(
                    pos as int,
                    start as int,
                ) + input@.subrange(start as int, end as int) + input@.subrange(
                    end as int,
                    stop as int,
                ));
            }
            Ok((v.decorated(decor), stop))
        },
        Err(f) => Err(f),
    }
}

/// Reads the inline table whose `{` is at `pos`.
pub fn parse_inline_table(input: &[u8], pos: usize) -> (r: Result<(Value, usize), Failure>)
    requires
        pos <= input@.len(),
    ensures
        agrees(r, spec_inline_table(input@, pos as int)),
        r matches Ok((v, end)) ==> {
            &&& pos < end <= input@.len()
            &&& v@.decor() == DecorView::empty()
            &&& v@.body() == input@.subrange(pos as int, end as int)
            &&& v@.wf()
        },
    decreases input@.len() - pos, 0int,
{
    if !is_at(input, pos, BRACE_OPEN) {
        return Err(Failure::NoMatch { at: pos, expected: Expected::Value });
    }
    let first = scan(input, pos + 1, ByteClass::Whitespace);
    if is_at(input, first, BRACE_CLOSE) {
        let table = InlineTable {
            entries: Vec::new(),
            preamble: copy_range(input, pos + 1, first),
            decor: Decor::empty(),
        };
        let v = Value::InlineTable(table);
        proof {
            assert(entries_view(table.entries@) =~= Seq::empty());
            assert(v@.body() =~= input@.subrange(pos as int, first + 1));
        }
        Ok((v, first + 1))
    } else {
        match parse_inline_items(input, pos + 1) {
            Ok((v, end)) => {
                proof {
                    assert(input@.subrange(pos as int, end as int) =~= seq![BRACE_OPEN]
                        + input@.subrange(pos + 1, end as int));
                }
                Ok((v, end))
            },
            Err(f) => Err(f),
        }
    }
}

/// Tells whether one of `entries` has the name `name`.
pub fn name_taken(entries: &Vec<InlineEntry>, name: &[u8]) -> (r: bool)
    ensures
        r == has_name(entries_view(entries@), name@),
{
    let mut i: usize = 0;
    while i < entries.len()
        invariant
            0 <= i <= entries.len(),
            forall|k: int| 0 <= k < i ==> (#[trigger] entries_view(entries@)[k]).key.name != name@,
        decreases entries.len() - i,
    {
        if bytes_eq(entries[i].key.name.as_slice(), name) {
            assert(entries_view(entries@)[i as int].key.name == name@);
            return true;
        }
        i += 1;
    }
    false
}

/// A key, `=` and a value, each decorated with the text that surrounds it,
/// spell the text they were read from.
pub proof fn lemma_pair_text(
    s: Seq<u8>,
    lead: int,
    k0: int,
    k1: int,
    eq: int,
    v0: int,
    v1: int,
    stop: int,
    key: KeyView,
    value: ValueView,
)
    requires
        0 <= lead <= k0 <= k1 <= eq < v0 <= v1 <= stop <= s.len(),
        s[eq] == EQUALS,
        key.decor == (DecorView { prefix: s.subrange(lead, k0), suffix: s.subrange(k1, eq) }),
        key.raw == s.subrange(k0, k1),
        value.decor() == (DecorView { prefix: s.subrange(eq + 1, v0), suffix: s.subrange(v1, stop) }),
        value.body() == s.subrange(v0, v1),
    ensures
        key.render() + seq![EQUALS] + value.render() == s.subrange(lead, stop),
{
    assert(key.render() =~= s.subrange(lead, eq));
    assert(value.render() =~= s.subrange(eq + 1, stop));
    assert(s.subrange(lead, stop) =~= s.subrange(lead, eq) + seq![EQUALS] + s.subrange(
        eq + 1,
        stop,
    ));
}

/// Reads one entry of an inline table at `pos`.
pub fn parse_inline_entry(input: &[u8], pos: usize) -> (r: Result<(InlineEntry, usize), Failure>)
    requires
        pos <= input@.len(),
    ensures
        agrees(r, spec_inline_entry(input@, pos as int)),
        r matches Ok((entry, end)) ==> {
            &&& pos < end <= input@.len()
            &&& entry@.render() == input@.subrange(pos as int, end as int)
            &&& entry@.value.wf()
        },
    decreases input@.len() - pos, 2int,
{
    let ghost s = input@;
    let k0 = scan(input, pos, ByteClass::Whitespace);
    let (key, k1) = match parse_key(input, k0) {
        Some(found) => found,
        None => {
            return Err(Failure::NoMatch { at: k0, expected: Expected::Key });
        },
    };
    let eq = scan(input, k1, ByteClass::Whitespace);
    if !is_at(input, eq, EQUALS) {
        return Err(Failure::NoMatch { at: eq, expected: Expected::Equals });
    }
    let v0 = scan(input, eq + 1, ByteClass::Whitespace);
    let (v, v1) = match parse_value(input, v0) {
        Ok(found) => found,
        Err(f) => {
            return Err(f);
        },
    };
    let stop = scan(input, v1, ByteClass::Whitespace);
    let ghost bare = key@;
    let ghost plain = v@;
    let key = Key {
        decor: Decor { prefix: copy_range(input, pos, k0), suffix: copy_range(input, k1, eq) },
        raw: key.raw,
        name: key.name,
        style: key.style,
    };
    let value_decor = Decor {
        prefix: copy_range(input, eq + 1, v0),
        suffix: copy_range(input, v1, stop),
    };
    let value = v.decorated(value_decor);
    proof {
        lemma_decorated(plain, value_decor@);
        assert(bare.raw == s.subrange(k0 as int, k1 as int)) by {
            assert(bare.render() =~= bare.raw);
        }
        lemma_pair_text(
            s,
            pos as int,
            k0 as int,
            k1 as int,
            eq as int,
            v0 as int,
            v1 as int,
            stop as int,
            key@,
            value@,
        );
    }
    let entry = InlineEntry { key, value };
    Ok((entry, stop))
}

/// Reads the entries of an inline table from `pos` on, up to and with the
/// closing `}`.
pub fn parse_inline_items(input: &[u8], pos: usize) -> (r: Result<(Value, usize), Failure>)
    requires
        pos <= input@.len(),
    ensures
        agrees(r, spec_inline_items(input@, pos as int, Seq::empty())),
        r matches Ok((v, end)) ==> {
            &&& pos < end <= input@.len()
            &&& v@.decor() == DecorView::empty()
            &&& v@.body() == seq![BRACE_OPEN] + input@.subrange(pos as int, end as int)
            &&& v@.wf()
        },
    decreases input@.len() - pos, 3int,
{
    let mut entries: Vec<InlineEntry> = Vec::new();
    let mut i: usize = pos;
    proof {
        assert(entries_view(entries@) =~= Seq::empty());
        assert(input@.subrange(pos as int, pos as int) =~= Seq::empty());
    }
    loop
        invariant
            pos <= i <= input@.len(),
            spec_inline_items(input@, pos as int, Seq::empty()) == spec_inline_items(
                input@,
                i as int,
                entries_view(entries@),
            ),
            input@.subrange(pos as int, i as int) =~= render_entries(entries_view(entries@)) + (
            if entries@.len() > 0 {
                seq![COMMA]
            } else {
                Seq::<u8>::empty()
            }),
            (InlineTableView {
                entries: entries_view(entries@),
                preamble: Seq::empty(),
                decor: DecorView::empty(),
            }).wf(),
        decreases input@.len() - i,
    {
        let ghost before = entries_view(entries@);
        let ghost s = input@;
        let (entry, stop) = match parse_inline_entry(input, i) {
            Ok(found) => found,
            Err(f) => {
                return Err(f);
            },
        };
        if name_taken(&entries, entry.key.name.as_slice()) {
            return Err(
                Failure::Abort {
                    error: CustomError::DuplicateKey { key: copy_bytes(entry.key.name.as_slice()) },
                },
            );
        }
        proof {
            lemma_render_entries_push(before, entry@);
            assert(s.subrange(pos as int, stop as int) =~= s.subrange(pos as int, i as int)
                + s.subrange(i as int, stop as int));
        }
        let ghost added = entry@;
        entries.push(entry);
        proof {
            assert(entries_view(entries@) =~= before.push(added));
            let now = entries_view(entries@);
            assert forall|a: int, b: int| 0 <= a < b < now.len() implies (#[trigger] now[a]).key.name
                != (#[trigger] now[b]).key.name by {
                if b == now.len() - 1 {
                    assert(before[a].key.name != added.key.name);
                } else {
                    assert(before[a].key.name != before[b].key.name);
                }
            }
            assert forall|a: int| 0 <= a < now.len() implies (#[trigger] now[a]).value.wf() by {
                if a < now.len() - 1 {
                    assert(before[a].value.wf());
                }
            }
        }
        if is_at(input, stop, COMMA) {
            proof {
                assert(s.subrange(pos as int, stop + 1) =~= s.subrange(pos as int, stop as int)
                    + seq![COMMA]);
            }
            i = stop + 1;
        } else if is_at(input, stop, BRACE_CLOSE) {
            let table = InlineTable { entries, preamble: Vec::new(), decor: Decor::empty() };
            let v = Value::InlineTable(table);
            proof {
                assert(v@.body() =~= seq![BRACE_OPEN] + s.subrange(pos as int, stop + 1));
            }
            return Ok((v, stop + 1));
        } else {
            return Err(Failure::NoMatch { at: stop, expected: Expected::InlineTableClose });
        }
    }
}

} // verus!

//! The grammar loses nothing: what a rule yields spells the text it was read
//! from.

use crate::decor::DecorView;
use crate::key::KeyView;
use crate::parser::array::{array_of, spec_array_from};
use crate::parser::lines::{
    keys_written, lemma_header_text, lemma_render_lines_push, lemma_render_path_push, lemma_subrange_join,
    render_lines, render_path, spec_header, spec_header_keys, spec_keyval, spec_line, spec_lines,
    LineView,
};
use crate::parser::numbers::{
    date_end, dec_end, digits_end, exp_end, frac_end, lemma_digits_bounds, offset_end, sign_end,
    spec_boolean, spec_datetime_end, spec_float_end, spec_integer, spec_prefixed, time_end,
};
use crate::parser::strings::{
    continuation_end, lemma_basic_body_bounds, lemma_continuation_advances, lemma_escape_advances,
    lemma_key_bounds, spec_escape, spec_key, spec_ml_basic_body, spec_ml_literal_end,
    spec_short_string, spec_string, triple_at,
};
use crate::parser::trivia::{
    at, at_class, lemma_span_bounds, lemma_trivia_bounds, line_rest_end, newline_len, span_end,
    trivia_end, ByteClass,
};
use crate::parser::value::{
    lemma_decorated, lemma_pair_text, lemma_render_entries_push, lemma_render_values_push,
    spec_array, spec_array_items, spec_array_value, spec_inline_entry, spec_inline_items,
    spec_inline_table, spec_scalar, spec_value, Outcome,
};
use crate::text::{
    APOSTROPHE, BACKSLASH, BRACE_CLOSE, BRACE_OPEN, BRACKET_CLOSE, BRACKET_OPEN, COMMA, DOT,
    EQUALS, QUOTE,
};
use crate::value::{
    render_entries, render_values, InlineEntryView, InlineTableView, ValueView,
};
use vstd::prelude::*;

verus! {

/// The closing quotes of a basic string of several lines stand inside the
/// text, at or behind the start of the body.
pub proof fn lemma_ml_basic_bounds(s: Seq<u8>, pos: int)
    requires
        0 <= pos <= s.len(),
    ensures
        spec_ml_basic_body(s, pos) matches Some((_, close)) ==> pos <= close && close + 3
            <= s.len(),
    decreases s.len() - pos,
{
    if triple_at(s, pos, QUOTE) {
    } else if continuation_end(s, pos) is Some {
        lemma_continuation_advances(s, pos);
        lemma_ml_basic_bounds(s, continuation_end(s, pos).unwrap());
    } else if at(s, pos, BACKSLASH) {
        lemma_escape_advances(s, pos + 1);
        if let Some((_, next)) = spec_escape(s, pos + 1) {
            lemma_ml_basic_bounds(s, next);
        }
    } else if newline_len(s, pos) > 0 {
        lemma_ml_basic_bounds(s, pos + newline_len(s, pos));
    } else if at_class(s, pos, ByteClass::BasicChar) || at(s, pos, QUOTE) {
        lemma_ml_basic_bounds(s, pos + 1);
    }
}

/// The closing apostrophes of a literal string of several lines stand inside
/// the text, at or behind the start of the body.
pub proof fn lemma_ml_literal_bounds(s: Seq<u8>, pos: int)
    requires
        0 <= pos <= s.len(),
    ensures
        spec_ml_literal_end(s, pos) matches Some(close) ==> pos <= close && close + 3 <= s.len(),
    decreases s.len() - pos,
{
    if triple_at(s, pos, APOSTROPHE) {
    } else if newline_len(s, pos) > 0 {
        lemma_ml_literal_bounds(s, pos + newline_len(s, pos));
    } else if at_class(s, pos, ByteClass::LiteralChar) || at(s, pos, APOSTROPHE) {
        lemma_ml_literal_bounds(s, pos + 1);
    }
}

/// A string ends inside the text, behind its start.
pub proof fn lemma_string_bounds(s: Seq<u8>, pos: int)
    requires
        0 <= pos <= s.len(),
    ensures
        spec_string(s, pos) matches Some((_, end)) ==> pos < end <= s.len(),
{
    let start = pos + 3 + newline_len(s, pos + 3);
    if triple_at(s, pos, QUOTE) {
        lemma_ml_basic_bounds(s, start);
    } else if triple_at(s, pos, APOSTROPHE) {
        lemma_ml_literal_bounds(s, start);
    } else if at(s, pos, QUOTE) {
        lemma_basic_body_bounds(s, pos + 1);
    } else if at(s, pos, APOSTROPHE) {
        lemma_span_bounds(s, pos + 1, ByteClass::LiteralChar);
    }
}

/// A date-time ends inside the text, behind its start.
pub proof fn lemma_datetime_bounds(s: Seq<u8>, pos: int)
    requires
        0 <= pos <= s.len(),
    ensures
        spec_datetime_end(s, pos) matches Some(end) ==> pos < end <= s.len(),
{
    if pos + 9 <= s.len() {
        lemma_span_bounds(s, pos + 9, ByteClass::Digit);
    }
    if let Some(d) = date_end(s, pos) {
        if d + 10 <= s.len() {
            lemma_span_bounds(s, d + 10, ByteClass::Digit);
        }
    }
}

/// A float ends inside the text, behind its start.
pub proof fn lemma_float_bounds(s: Seq<u8>, pos: int)
    requires
        0 <= pos <= s.len(),
    ensures
        spec_float_end(s, pos) matches Some(end) ==> pos < end <= s.len(),
{
    let start = sign_end(s, pos);
    lemma_digits_bounds(s, start, ByteClass::Digit);
    let whole = dec_end(s, start);
    if whole + 1 <= s.len() {
        lemma_digits_bounds(s, whole + 1, ByteClass::Digit);
    }
    let frac = frac_end(s, whole);
    if frac + 1 <= s.len() {
        let digits = sign_end(s, frac + 1);
        lemma_digits_bounds(s, digits, ByteClass::Digit);
    }
}

/// An integer ends inside the text, behind its start.
pub proof fn lemma_integer_bounds(s: Seq<u8>, pos: int)
    requires
        0 <= pos <= s.len(),
    ensures
        spec_integer(s, pos) matches Some((_, end)) ==> pos < end <= s.len(),
{
    if pos + 2 <= s.len() {
        lemma_digits_bounds(s, pos + 2, ByteClass::HexDigit);
        lemma_digits_bounds(s, pos + 2, ByteClass::OctDigit);
        lemma_digits_bounds(s, pos + 2, ByteClass::BinDigit);
    }
    lemma_digits_bounds(s, sign_end(s, pos), ByteClass::Digit);
}

/// What a rule for values yields is the text it was read from: the value has
/// no decoration, its text is the text between `pos` and its end, and it is
/// well formed.
pub open spec fn reads_plain(s: Seq<u8>, pos: int, r: Outcome<ValueView>) -> bool {
    r matches Ok((v, end)) ==> {
        &&& pos < end <= s.len()
        &&& v.decor() == DecorView::empty()
        &&& v.body() == s.subrange(pos, end)
        &&& v.wf()
    }
}

/// A scalar is the text it was read from.
pub proof fn lemma_scalar_lossless(s: Seq<u8>, pos: int)
    requires
        0 <= pos <= s.len(),
    ensures
        spec_scalar(s, pos) matches Some((v, end)) ==> {
            &&& pos < end <= s.len()
            &&& v.decor() == DecorView::empty()
            &&& v.body() == s.subrange(pos, end)
            &&& v.wf()
        },
{
    lemma_string_bounds(s, pos);
    lemma_datetime_bounds(s, pos);
    lemma_float_bounds(s, pos);
    lemma_integer_bounds(s, pos);
}

/// A value is the text it was read from.
pub proof fn lemma_value_lossless(s: Seq<u8>, pos: int)
    requires
        0 <= pos <= s.len(),
    ensures
        reads_plain(s, pos, spec_value(s, pos)),
    decreases s.len() - pos, 1int,
{
    if at(s, pos, BRACKET_OPEN) {
        lemma_array_lossless(s, pos);
    } else if at(s, pos, BRACE_OPEN) {
        lemma_inline_table_lossless(s, pos);
    } else {
        lemma_scalar_lossless(s, pos);
    }
}

/// An array is the text it was read from.
pub proof fn lemma_array_lossless(s: Seq<u8>, pos: int)
    requires
        0 <= pos <= s.len(),
    ensures
        reads_plain(s, pos, spec_array(s, pos)),
    decreases s.len() - pos, 0int,
{
    if at(s, pos, BRACKET_OPEN) {
        assert(s.subrange(pos + 1, pos + 1) =~= Seq::<u8>::empty());
        lemma_array_items_lossless(s, pos + 1, pos + 1, Seq::empty());
        if let Ok(((vs, comma), end)) = spec_array_items(s, pos + 1, Seq::empty()) {
            lemma_trivia_bounds(s, end);
            let close = trivia_end(s, end);
            if at(s, close, BRACKET_CLOSE) {
                if let Ok(a) = spec_array_from(vs, comma, s.subrange(end, close)) {
                    let v = ValueView::Array(a);
                    let tail = if comma {
                        seq![COMMA]
                    } else {
                        Seq::<u8>::empty()
                    };
                    assert(s.subrange(pos, close + 1) =~= seq![BRACKET_OPEN] + s.subrange(
                        pos + 1,
                        end,
                    ) + s.subrange(end, close) + seq![BRACKET_CLOSE]);
                    assert(v.body() =~= seq![BRACKET_OPEN] + (render_values(vs) + tail)
                        + s.subrange(end, close) + seq![BRACKET_CLOSE]);
                }
            }
        }
    }
}

/// The elements of an array are the text they were read from.
pub proof fn lemma_array_items_lossless(s: Seq<u8>, start: int, pos: int, acc: Seq<ValueView>)
    requires
        0 <= start <= pos <= s.len(),
        s.subrange(start, pos) == render_values(acc) + (if acc.len() > 0 {
            seq![COMMA]
        } else {
            Seq::<u8>::empty()
        }),
        forall|i: int| 0 <= i < acc.len() ==> (#[trigger] acc[i]).wf(),
    ensures
        spec_array_items(s, pos, acc) matches Ok(((vs, comma), end)) ==> {
            &&& pos <= end <= s.len()
            &&& s.subrange(start, end) == render_values(vs) + (if comma {
                seq![COMMA]
            } else {
                Seq::<u8>::empty()
            })
            &&& forall|i: int| 0 <= i < vs.len() ==> (#[trigger] vs[i]).wf()
        },
    decreases s.len() - pos, 3int,
{
    lemma_array_value_lossless(s, pos);
    match spec_array_value(s, pos) {
        Ok((v, end)) => {
            let next = acc.push(v);
            lemma_render_values_push(acc, v);
            lemma_subrange_join(s, start, pos, end);
            assert(s.subrange(start, end) =~= render_values(next));
            assert forall|i: int| 0 <= i < next.len() implies (#[trigger] next[i]).wf() by {
                if i < acc.len() {
                    assert(acc[i].wf());
                }
            }
            if pos <= end && at(s, end, COMMA) {
                lemma_subrange_join(s, start, end, end + 1);
                assert(s.subrange(end, end + 1) =~= seq![COMMA]);
                lemma_array_items_lossless(s, start, end + 1, next);
            } else {
                assert(render_values(next) + Seq::<u8>::empty() =~= render_values(next));
            }
        },
        Err(_) => {},
    }
}

/// An element of an array is the text it was read from, decoration
/// included.
pub proof fn lemma_array_value_lossless(s: Seq<u8>, pos: int)
    requires
        0 <= pos <= s.len(),
    ensures
        spec_array_value(s, pos) matches Ok((v, end)) ==> {
            &&& pos < end <= s.len()
            &&& v.render() == s.subrange(pos, end)
            &&& v.wf()
        },
    decreases s.len() - pos, 2int,
{
    lemma_trivia_bounds(s, pos);
    let start = trivia_end(s, pos);
    lemma_value_lossless(s, start);
    if let Ok((v, end)) = spec_value(s, start) {
        lemma_trivia_bounds(s, end);
        let stop = trivia_end(s, end);
        let d = DecorView { prefix: s.subrange(pos, start), suffix: s.subrange(end, stop) };
        lemma_decorated(v, d);
        assert(s.subrange(pos, stop) =~= s.subrange(pos, start) + s.subrange(start, end)
            + s.subrange(end, stop));
    }
}

/// An inline table is the text it was read from.
pub proof fn lemma_inline_table_lossless(s: Seq<u8>, pos: int)
    requires
        0 <= pos <= s.len(),
    ensures
        reads_plain(s, pos, spec_inline_table(s, pos)),
    decreases s.len() - pos, 0int,
{
    if at(s, pos, BRACE_OPEN) {
        lemma_span_bounds(s, pos + 1, ByteClass::Whitespace);
        let first = span_end(s, pos + 1, ByteClass::Whitespace);
        if at(s, first, BRACE_CLOSE) {
            let v = spec_inline_table(s, pos)->Ok_0.0;
            assert(render_entries(Seq::<InlineEntryView>::empty()) =~= Seq::<u8>::empty());
            assert(v.body() =~= s.subrange(pos, first + 1));
        } else {
            assert(s.subrange(pos + 1, pos + 1) =~= Seq::<u8>::empty());
            lemma_inline_items_lossless(s, pos + 1, pos + 1, Seq::empty());
            if let Ok((v, end)) = spec_inline_items(s, pos + 1, Seq::empty()) {
                assert(s.subrange(pos, end) =~= seq![BRACE_OPEN] + s.subrange(pos + 1, end));
            }
        }
    }
}

/// An entry of an inline table is the text it was read from.
pub proof fn lemma_inline_entry_lossless(s: Seq<u8>, pos: int)
    requires
        0 <= pos <= s.len(),
    ensures
        spec_inline_entry(s, pos) matches Ok((entry, end)) ==> {
            &&& pos < end <= s.len()
            &&& entry.render() == s.subrange(pos, end)
            &&& entry.value.wf()
        },
    decreases s.len() - pos, 2int,
{
    lemma_span_bounds(s, pos, ByteClass::Whitespace);
    let k0 = span_end(s, pos, ByteClass::Whitespace);
    lemma_key_bounds(s, k0);
    lemma_key_raw(s, k0);
    if let Some((key, k1)) = spec_key(s, k0) {
        lemma_span_bounds(s, k1, ByteClass::Whitespace);
        let eq = span_end(s, k1, ByteClass::Whitespace);
        if at(s, eq, EQUALS) {
            lemma_span_bounds(s, eq + 1, ByteClass::Whitespace);
            let v0 = span_end(s, eq + 1, ByteClass::Whitespace);
            lemma_value_lossless(s, v0);
            if let Ok((v, v1)) = spec_value(s, v0) {
                lemma_span_bounds(s, v1, ByteClass::Whitespace);
                let stop = span_end(s, v1, ByteClass::Whitespace);
                let entry = spec_inline_entry(s, pos)->Ok_0.0;
                lemma_decorated(
                    v,
                    DecorView { prefix: s.subrange(eq + 1, v0), suffix: s.subrange(v1, stop) },
                );
                lemma_pair_text(s, pos, k0, k1, eq, v0, v1, stop, entry.key, entry.value);
            }
        }
    }
}

/// A key is written as the text it was read from.
pub proof fn lemma_key_raw(s: Seq<u8>, pos: int)
    requires
        0 <= pos <= s.len(),
    ensures
        spec_key(s, pos) matches Some((key, end)) ==> key.raw == s.subrange(pos, end) && key.decor
            == DecorView::empty(),
{
}

/// The entries of an inline table, and its closing brace, are the text they
/// were read from.
pub proof fn lemma_inline_items_lossless(
    s: Seq<u8>,
    start: int,
    pos: int,
    acc: Seq<InlineEntryView>,
)
    requires
        0 <= start <= pos <= s.len(),
        s.subrange(start, pos) == render_entries(acc) + (if acc.len() > 0 {
            seq![COMMA]
        } else {
            Seq::<u8>::empty()
        }),
        (InlineTableView { entries: acc, preamble: Seq::empty(), decor: DecorView::empty() }).wf(),
    ensures
        spec_inline_items(s, pos, acc) matches Ok((v, end)) ==> {
            &&& pos < end <= s.len()
            &&& v.decor() == DecorView::empty()
            &&& v.body() == seq![BRACE_OPEN] + s.subrange(start, end)
            &&& v.wf()
        },
    decreases s.len() - pos, 3int,
{
    lemma_inline_entry_lossless(s, pos);
    match spec_inline_entry(s, pos) {
        Ok((entry, stop)) => {
            let next = acc.push(entry);
            lemma_render_entries_push(acc, entry);
            lemma_subrange_join(s, start, pos, stop);
            assert(s.subrange(start, stop) =~= render_entries(next));
            if !crate::parser::value::has_name(acc, entry.key.name) {
                assert forall|a: int, b: int| 0 <= a < b < next.len() implies (
                #[trigger] next[a]).key.name != (#[trigger] next[b]).key.name by {
                    if b == next.len() - 1 {
                        assert(acc[a].key.name != entry.key.name);
                    } else {
                        assert(acc[a].key.name != acc[b].key.name);
                    }
                }
                assert forall|a: int| 0 <= a < next.len() implies (#[trigger] next[a]).value.wf() by {
                    if a < acc.len() {
                        assert(acc[a].value.wf());
                    }
                }
                if pos <= stop && at(s, stop, COMMA) {
                    lemma_subrange_join(s, start, stop, stop + 1);
                    assert(s.subrange(stop, stop + 1) =~= seq![COMMA]);
                    lemma_inline_items_lossless(s, start, stop + 1, next);
                } else if at(s, stop, BRACE_CLOSE) {
                    let v = spec_inline_items(s, pos, acc)->Ok_0.0;
                    assert(v.body() =~= seq![BRACE_OPEN] + s.subrange(start, stop + 1));
                }
            }
        },
        Err(_) => {},
    }
}

/// The rest of a line ends inside the text, at or behind its start.
pub proof fn lemma_line_rest_bounds(s: Seq<u8>, pos: int)
    requires
        0 <= pos <= s.len(),
    ensures
        line_rest_end(s, pos) matches Some(end) ==> pos <= end <= s.len(),
{
    lemma_span_bounds(s, pos, ByteClass::Whitespace);
    let blank = span_end(s, pos, ByteClass::Whitespace);
    if blank + 1 <= s.len() {
        lemma_span_bounds(s, blank + 1, ByteClass::NonEol);
    }
}

/// What a rule for lines yields is the text it was read from, what stood
/// before the line included.
pub open spec fn reads_line(s: Seq<u8>, lead: int, pos: int, r: Outcome<LineView>) -> bool {
    r matches Ok((line, end)) ==> {
        &&& pos < end <= s.len()
        &&& line.render() == s.subrange(lead, end)
        &&& line.wf()
    }
}

/// A line `key = value` is the text it was read from.
pub proof fn lemma_keyval_lossless(s: Seq<u8>, lead: int, pos: int)
    requires
        0 <= lead <= pos <= s.len(),
    ensures
        reads_line(s, lead, pos, spec_keyval(s, lead, pos)),
{
    lemma_key_bounds(s, pos);
    lemma_key_raw(s, pos);
    if let Some((key, k1)) = spec_key(s, pos) {
        lemma_span_bounds(s, k1, ByteClass::Whitespace);
        let eq = span_end(s, k1, ByteClass::Whitespace);
        if at(s, eq, EQUALS) {
            lemma_span_bounds(s, eq + 1, ByteClass::Whitespace);
            let v0 = span_end(s, eq + 1, ByteClass::Whitespace);
            lemma_value_lossless(s, v0);
            if let Ok((v, v1)) = spec_value(s, v0) {
                lemma_line_rest_bounds(s, v1);
                if let Some(stop) = line_rest_end(s, v1) {
                    let line = spec_keyval(s, lead, pos)->Ok_0.0;
                    lemma_decorated(
                        v,
                        DecorView { prefix: s.subrange(eq + 1, v0), suffix: s.subrange(v1, stop) },
                    );
                    lemma_pair_text(
                        s,
                        lead,
                        pos,
                        k1,
                        eq,
                        v0,
                        v1,
                        stop,
                        line->KeyValue_key,
                        line->KeyValue_value,
                    );
                }
            }
        }
    }
}

/// The keys of a header are the text they were read from.
pub proof fn lemma_header_keys_lossless(s: Seq<u8>, start: int, pos: int, acc: Seq<KeyView>)
    requires
        0 <= start <= pos <= s.len(),
        s.subrange(start, pos) == render_path(acc) + (if acc.len() > 0 {
            seq![DOT]
        } else {
            Seq::<u8>::empty()
        }),
        keys_written(acc),
    ensures
        spec_header_keys(s, pos, acc) matches Ok((path, end)) ==> {
            &&& pos < end <= s.len()
            &&& render_path(path) == s.subrange(start, end)
            &&& path.len() > 0
            &&& keys_written(path)
        },
    decreases s.len() - pos,
{
    reveal(keys_written);
    lemma_span_bounds(s, pos, ByteClass::Whitespace);
    let k0 = span_end(s, pos, ByteClass::Whitespace);
    lemma_key_bounds(s, k0);
    lemma_key_raw(s, k0);
    if let Some((key, k1)) = spec_key(s, k0) {
        lemma_span_bounds(s, k1, ByteClass::Whitespace);
        let stop = span_end(s, k1, ByteClass::Whitespace);
        let decorated = KeyView {
            decor: DecorView { prefix: s.subrange(pos, k0), suffix: s.subrange(k1, stop) },
            ..key
        };
        let next = acc.push(decorated);
        lemma_render_path_push(acc, decorated);
        assert(decorated.render() =~= s.subrange(pos, stop));
        lemma_subrange_join(s, start, pos, stop);
        assert(s.subrange(start, stop) =~= render_path(next));
        assert forall|k: int| 0 <= k < next.len() implies (#[trigger] next[k]).raw.len() > 0 by {
            if k < acc.len() {
                assert(acc[k].raw.len() > 0);
            }
        }
        if at(s, stop, DOT) {
            lemma_subrange_join(s, start, stop, stop + 1);
            assert(s.subrange(stop, stop + 1) =~= seq![DOT]);
            lemma_header_keys_lossless(s, start, stop + 1, next);
        }
    }
}

/// A header is the text it was read from.
pub proof fn lemma_header_lossless(s: Seq<u8>, lead: int, pos: int)
    requires
        0 <= lead <= pos <= s.len(),
    ensures
        reads_line(s, lead, pos, spec_header(s, lead, pos)),
{
    if at(s, pos, BRACKET_OPEN) {
        let array = at(s, pos + 1, BRACKET_OPEN);
        let width: int = if array {
            2
        } else {
            1
        };
        assert(s.subrange(pos + width, pos + width) =~= Seq::<u8>::empty());
        assert(keys_written(Seq::<KeyView>::empty())) by {
            reveal(keys_written);
        }
        lemma_header_keys_lossless(s, pos + width, pos + width, Seq::empty());
        if let Ok((path, close)) = spec_header_keys(s, pos + width, Seq::empty()) {
            if at(s, close, BRACKET_CLOSE) && (!array || at(s, close + 1, BRACKET_CLOSE)) {
                lemma_line_rest_bounds(s, close + width);
                if let Some(stop) = line_rest_end(s, close + width) {
                    let line = spec_header(s, lead, pos)->Ok_0.0;
                    lemma_header_text(s, lead, pos, close, stop, line);
                }
            }
        }
    }
}

/// The lines of a text, and what stands behind them, are the text.
pub proof fn lemma_lines_lossless(s: Seq<u8>, pos: int, acc: Seq<LineView>)
    requires
        0 <= pos <= s.len(),
        s.subrange(0, pos) == render_lines(acc),
        forall|i: int| 0 <= i < acc.len() ==> (#[trigger] acc[i]).wf(),
    ensures
        spec_lines(s, pos, acc) matches Ok(((lines, trailing), end)) ==> {
            &&& render_lines(lines) + trailing == s
            &&& forall|i: int| 0 <= i < lines.len() ==> (#[trigger] lines[i]).wf()
        },
    decreases s.len() - pos,
{
    lemma_trivia_bounds(s, pos);
    let start = trivia_end(s, pos);
    if start >= s.len() {
        lemma_subrange_join(s, 0, pos, start);
        assert(s.subrange(0, start) =~= s);
    } else {
        if at(s, start, BRACKET_OPEN) {
            lemma_header_lossless(s, pos, start);
        } else {
            lemma_keyval_lossless(s, pos, start);
        }
        if let Ok((line, stop)) = spec_line(s, pos, start) {
            if pos < stop <= s.len() {
                let next = acc.push(line);
                lemma_render_lines_push(acc, line);
                lemma_subrange_join(s, 0, pos, stop);
                assert forall|i: int| 0 <= i < next.len() implies (#[trigger] next[i]).wf() by {
                    if i < acc.len() {
                        assert(acc[i].wf());
                    }
                }
                lemma_lines_lossless(s, stop, next);
            }
        }
    }
}

/// The number of keys in the headers among the lines.
pub open spec fn keys_in(lines: Seq<LineView>) -> nat
    decreases lines.len(),
{
    if lines.len() == 0 {
        0
    } else {
        keys_in(lines.drop_last()) + (match lines.last() {
            LineView::KeyValue { .. } => 0nat,
            LineView::Header { path, .. } => path.len(),
        })
    }
}

/// A path is at least as long as the number of its keys.
pub proof fn lemma_path_length(path: Seq<KeyView>)
    requires
        keys_written(path),
    ensures
        render_path(path).len() >= path.len(),
    decreases path.len(),
{
    reveal(keys_written);
    if path.len() > 0 {
        let front = path.drop_last();
        assert forall|k: int| 0 <= k < front.len() implies (#[trigger] front[k]).raw.len() > 0 by {
            assert(path[k].raw.len() > 0);
        }
        lemma_path_length(front);
        assert(path[path.len() - 1].raw.len() > 0);
        assert(path.last().render().len() >= 1);
    }
}

/// The lines are at least as long as the number of keys in their headers.
pub proof fn lemma_keys_fit(lines: Seq<LineView>)
    requires
        forall|i: int| 0 <= i < lines.len() ==> (#[trigger] lines[i]).wf(),
    ensures
        keys_in(lines) <= render_lines(lines).len(),
    decreases lines.len(),
{
    if lines.len() > 0 {
        let front = lines.drop_last();
        assert forall|i: int| 0 <= i < front.len() implies (#[trigger] front[i]).wf() by {
            assert(lines[i].wf());
        }
        lemma_keys_fit(front);
        assert(lines[lines.len() - 1].wf());
        match lines.last() {
            LineView::KeyValue { .. } => {},
            LineView::Header { path, .. } => {
                lemma_path_length(path);
            },
        }
    }
}

} // verus!

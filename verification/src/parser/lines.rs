//! The lines of a document: `key = value` pairs and table headers, each with
//! the blank lines and comments before it.

use crate::decor::{Decor, DecorView};
use crate::errors::{Expected, Failure, FailureView};
use crate::key::{Key, KeyView};
use crate::parser::strings::{lemma_key_bounds, parse_key, spec_key};
use crate::parser::trivia::{
    at, is_at, lemma_span_bounds, lemma_trivia_bounds, line_rest_end, line_rest_stop, scan,
    skip_line_rest, skip_trivia, span_end, trivia_end, ByteClass,
};
use crate::parser::value::{
    agrees, lemma_decorated, lemma_pair_text, no_match, parse_value, spec_value, Outcome,
};
use crate::text::{brackets, copy_range, BRACKET_CLOSE, BRACKET_OPEN, DOT, EQUALS};
use crate::value::{Value, ValueView};
use vstd::prelude::*;

verus! {

/// One line of a document.
#[derive(Debug, PartialEq, Eq)]
pub enum Line {
    /// `key = value`. The key's prefix holds the blank lines and comments
    /// before the line, the value's suffix the rest of the line with its line
    /// break.
    KeyValue { key: Key, value: Value },
    /// `[a.b]`, or `[[a.b]]` where `array` is set. The decoration holds what
    /// stands before the line and behind the closing bracket; each key has the
    /// whitespace around it as its own.
    Header { decor: Decor, path: Vec<Key>, array: bool },
}

/// A line as plain data.
pub enum LineView {
    KeyValue { key: KeyView, value: ValueView },
    Header { decor: DecorView, path: Seq<KeyView>, array: bool },
}

/// The views of a sequence of keys, element by element.
pub open spec fn keys_view(ks: Seq<Key>) -> Seq<KeyView> {
    Seq::new(ks.len(), |i: int| ks[i]@)
}

/// The views of a sequence of lines, element by element.
pub open spec fn lines_view(ls: Seq<Line>) -> Seq<LineView> {
    Seq::new(ls.len(), |i: int| ls[i]@)
}

impl View for Line {
    type V = LineView;

    open spec fn view(&self) -> LineView {
        match self {
            Line::KeyValue { key, value } => LineView::KeyValue { key: key@, value: value@ },
            Line::Header { decor, path, array } => LineView::Header {
                decor: decor@,
                path: keys_view(path@),
                array: *array,
            },
        }
    }
}

/// The texts of the keys, with a dot between neighbours.
pub open spec fn render_path(ks: Seq<KeyView>) -> Seq<u8>
    decreases ks.len(),
{
    if ks.len() == 0 {
        Seq::empty()
    } else if ks.len() == 1 {
        ks[0].render()
    } else {
        render_path(ks.drop_last()) + seq![DOT] + ks.last().render()
    }
}

/// None of the keys is written as nothing.
#[verifier::opaque]
pub open spec fn keys_written(ks: Seq<KeyView>) -> bool {
    forall|k: int| 0 <= k < ks.len() ==> (#[trigger] ks[k]).raw.len() > 0
}

impl LineView {
    /// For a header, the text from its first bracket to its last.
    pub open spec fn header_text(self) -> Seq<u8> {
        match self {
            LineView::KeyValue { .. } => Seq::empty(),
            LineView::Header { path, array, .. } => brackets(array, true) + render_path(path)
                + brackets(array, false),
        }
    }

    /// The text of the line.
    pub open spec fn render(self) -> Seq<u8> {
        match self {
            LineView::KeyValue { key, value } => key.render() + seq![EQUALS] + value.render(),
            LineView::Header { decor, .. } => decor.prefix + self.header_text() + decor.suffix,
        }
    }

    /// The values of the line are well formed, and a header has keys, none
    /// of them written as nothing.
    pub open spec fn wf(self) -> bool {
        match self {
            LineView::KeyValue { value, .. } => value.wf(),
            LineView::Header { path, .. } => path.len() > 0 && keys_written(path),
        }
    }
}

/// The texts of the lines, one after the other.
pub open spec fn render_lines(ls: Seq<LineView>) -> Seq<u8>
    decreases ls.len(),
{
    if ls.len() == 0 {
        Seq::empty()
    } else {
        render_lines(ls.drop_last()) + ls.last().render()
    }
}

/// The line `key = value` whose key is at `pos`; what stands between `lead`
/// and `pos` becomes the prefix of the key, the rest of the line the suffix of
/// the value.
pub open spec fn spec_keyval(s: Seq<u8>, lead: int, pos: int) -> Outcome<LineView> {
    match spec_key(s, pos) {
        None => no_match(pos, Expected::Key),
        Some((key, k1)) => {
            let eq = span_end(s, k1, ByteClass::Whitespace);
            if !at(s, eq, EQUALS) {
                no_match(eq, Expected::Equals)
            } else {
                let v0 = span_end(s, eq + 1, ByteClass::Whitespace);
                match spec_value(s, v0) {
                    Err(f) => Err(f),
                    Ok((v, v1)) => match line_rest_end(s, v1) {
                        None => no_match(line_rest_stop(s, v1), Expected::LineEnd),
                        Some(stop) => Ok(
                            (
                                LineView::KeyValue {
                                    key: KeyView {
                                        decor: DecorView {
                                            prefix: s.subrange(lead, pos),
                                            suffix: s.subrange(k1, eq),
                                        },
                                        ..key
                                    },
                                    value: v.decorated(
                                        DecorView {
                                            prefix: s.subrange(eq + 1, v0),
                                            suffix: s.subrange(v1, stop),
                                        },
                                    ),
                                },
                                stop,
                            ),
                        ),
                    },
                }
            }
        },
    }
}

/// The keys of a header from `pos` on, behind those in `acc`: keys with dots
/// between them, each with the whitespace around it.
pub open spec fn spec_header_keys(s: Seq<u8>, pos: int, acc: Seq<KeyView>) -> Outcome<
    Seq<KeyView>,
>
    decreases s.len() - pos,
{
    if pos < 0 || pos > s.len() {
        no_match(pos, Expected::Key)
    } else {
        let k0 = span_end(s, pos, ByteClass::Whitespace);
        match spec_key(s, k0) {
            None => no_match(k0, Expected::Key),
            Some((key, k1)) => {
                let stop = span_end(s, k1, ByteClass::Whitespace);
                let decorated = KeyView {
                    decor: DecorView { prefix: s.subrange(pos, k0), suffix: s.subrange(k1, stop) },
                    ..key
                };
                proof {
                    lemma_span_bounds(s, pos, ByteClass::Whitespace);
                    lemma_key_bounds(s, k0);
                    lemma_span_bounds(s, k1, ByteClass::Whitespace);
                }
                if at(s, stop, DOT) {
                    spec_header_keys(s, stop + 1, acc.push(decorated))
                } else {
                    Ok((acc.push(decorated), stop))
                }
            },
        }
    }
}

/// The header whose first bracket is at `pos`; what stands between `lead` and
/// `pos` becomes its prefix, the rest of the line its suffix.
pub open spec fn spec_header(s: Seq<u8>, lead: int, pos: int) -> Outcome<LineView> {
    let array = at(s, pos + 1, BRACKET_OPEN);
    let width: int = if array {
        2
    } else {
        1
    };
    if !at(s, pos, BRACKET_OPEN) {
        no_match(pos, Expected::Key)
    } else {
        match spec_header_keys(s, pos + width, Seq::empty()) {
            Err(f) => Err(f),
            Ok((path, close)) => {
                if !at(s, close, BRACKET_CLOSE) || (array && !at(s, close + 1, BRACKET_CLOSE)) {
                    no_match(close, Expected::HeaderClose)
                } else {
                    match line_rest_end(s, close + width) {
                        None => no_match(line_rest_stop(s, close + width), Expected::LineEnd),
                        Some(stop) => Ok(
                            (
                                LineView::Header {
                                    decor: DecorView {
                                        prefix: s.subrange(lead, pos),
                                        suffix: s.subrange(close + width, stop),
                                    },
                                    path,
                                    array,
                                },
                                stop,
                            ),
                        ),
                    }
                }
            },
        }
    }
}

/// The line whose first byte, behind blank lines and comments that start at
/// `lead`, is at `pos`.
pub open spec fn spec_line(s: Seq<u8>, lead: int, pos: int) -> Outcome<LineView> {
    if at(s, pos, BRACKET_OPEN) {
        spec_header(s, lead, pos)
    } else {
        spec_keyval(s, lead, pos)
    }
}

/// The lines of the text from `pos` on, behind those in `acc`, and what
/// stands behind the last of them.
pub open spec fn spec_lines(s: Seq<u8>, pos: int, acc: Seq<LineView>) -> Outcome<
    (Seq<LineView>, Seq<u8>),
>
    decreases s.len() - pos,
{
    if pos < 0 || pos > s.len() {
        no_match(pos, Expected::Key)
    } else {
        let start = trivia_end(s, pos);
        if start >= s.len() {
            Ok(((acc, s.subrange(pos, start)), start))
        } else {
            match spec_line(s, pos, start) {
                Err(f) => Err(f),
                Ok((line, stop)) => {
                    if pos < stop <= s.len() {
                        spec_lines(s, stop, acc.push(line))
                    } else {
                        no_match(stop, Expected::LineEnd)
                    }
                },
            }
        }
    }
}

/// The text of a path with one more key.
pub proof fn lemma_render_path_push(ks: Seq<KeyView>, k: KeyView)
    ensures
        render_path(ks.push(k)) == if ks.len() == 0 {
            k.render()
        } else {
            render_path(ks) + seq![DOT] + k.render()
        },
{
    assert(ks.push(k).drop_last() =~= ks);
}

/// Reads the line `key = value` whose key is at `pos`.
pub fn parse_keyval(input: &[u8], lead: usize, pos: usize) -> (r: Result<(Line, usize), Failure>)
    requires
        lead <= pos <= input@.len(),
    ensures
        agrees(r, spec_keyval(input@, lead as int, pos as int)),
        r matches Ok((line, end)) ==> {
            &&& pos < end <= input@.len()
            &&& line@.render() == input@.subrange(lead as int, end as int)
            &&& line@.wf()
        },
{
    let ghost s = input@;
    let (key, k1) = match parse_key(input, pos) {
        Some(found) => found,
        None => {
            return Err(Failure::NoMatch { at: pos, expected: Expected::Key });
        },
    };
    let eq = scan(input, k1, ByteClass::Whitespace);
    if !is_at(input, eq, EQUALS) {
        return Err(Failure::NoMatch { at: eq, expected: Expected::Equals });
    }
    let v0 = scan(input, eq + 1, ByteClass::Whitespace);
    let (v, v1) = match parse_value(input, v0) {
        Ok(found) => found,
        Err(f) => {
            return Err(f);
        },
    };
    let stop = match skip_line_rest(input, v1) {
        Ok(stop) => stop,
        Err(at) => {
            return Err(Failure::NoMatch { at, expected: Expected::LineEnd });
        },
    };
    let ghost bare = key@;
    let ghost plain = v@;
    let key = Key {
        decor: Decor { prefix: copy_range(input, lead, pos), suffix: copy_range(input, k1, eq) },
        raw: key.raw,
        name: key.name,
        style: key.style,
    };
    let value_decor = Decor {
        prefix: copy_range(input, eq + 1, v0),
        suffix: copy_range(input, v1, stop),
    };
    let value = v.decorated(value_decor);
    proof {
        lemma_decorated(plain, value_decor@);
        assert(bare.raw == s.subrange(pos as int, k1 as int)) by {
            assert(bare.render() =~= bare.raw);
        }
        lemma_pair_text(
            s,
            lead as int,
            pos as int,
            k1 as int,
            eq as int,
            v0 as int,
            v1 as int,
            stop as int,
            key@,
            value@,
        );
    }
    let line = Line::KeyValue { key, value };
    Ok((line, stop))
}

/// Reads the keys of a header from `pos` on.
pub fn parse_header_keys(input: &[u8], pos: usize) -> (r: Result<(Vec<Key>, usize), Failure>)
    requires
        pos <= input@.len(),
    ensures
        match r {
            Ok((path, end)) => {
                &&& spec_header_keys(input@, pos as int, Seq::empty()) == Ok::<
                    (Seq<KeyView>, int),
                    FailureView,
                >((keys_view(path@), end as int))
                &&& pos < end <= input@.len()
                &&& render_path(keys_view(path@)) == input@.subrange(pos as int, end as int)
                &&& path@.len() > 0
                &&& forall|k: int|
                    0 <= k < path@.len() ==> (#[trigger] keys_view(path@)[k]).raw.len() > 0
            },
            Err(f) => spec_header_keys(input@, pos as int, Seq::empty()) == Err::<
                (Seq<KeyView>, int),
                FailureView,
            >(f@),
        },
{
    let ghost s = input@;
    let mut path: Vec<Key> = Vec::new();
    let mut i: usize = pos;
    proof {
        assert(keys_view(path@) =~= Seq::empty());
        assert(s.subrange(pos as int, pos as int) =~= Seq::empty());
    }
    loop
        invariant
            s == input@,
            pos <= i <= input@.len(),
            spec_header_keys(s, pos as int, Seq::empty()) == spec_header_keys(
                s,
                i as int,
                keys_view(path@),
            ),
            s.subrange(pos as int, i as int) =~= render_path(keys_view(path@)) + (if path@.len()
                > 0 {
                seq![DOT]
            } else {
                Seq::<u8>::empty()
            }),
            forall|k: int| 0 <= k < path@.len() ==> (#[trigger] keys_view(path@)[k]).raw.len() > 0,
        decreases input@.len() - i,
    {
        let ghost before = keys_view(path@);
        let k0 = scan(input, i, ByteClass::Whitespace);
        let (key, k1) = match parse_key(input, k0) {
            Some(found) => found,
            None => {
                return Err(Failure::NoMatch { at: k0, expected: Expected::Key });
            },
        };
        let stop = scan(input, k1, ByteClass::Whitespace);
        let ghost bare = key@;
        let key = Key {
            decor: Decor { prefix: copy_range(input, i, k0), suffix: copy_range(input, k1, stop) },
            raw: key.raw,
            name: key.name,
            style: key.style,
        };
        proof {
            lemma_render_path_push(before, key@);
            assert(bare.raw == s.subrange(k0 as int, k1 as int)) by {
                assert(bare.render() =~= bare.raw);
            }
            assert(key@.render() =~= s.subrange(i as int, stop as int));
            assert(s.subrange(pos as int, stop as int) =~= s.subrange(pos as int, i as int)
                + s.subrange(i as int, stop as int));
        }
        let ghost added = key@;
        path.push(key);
        proof {
            assert(keys_view(path@) =~= before.push(added));
            assert(added.raw.len() > 0);
            assert forall|k: int| 0 <= k < path@.len() implies (
            #[trigger] keys_view(path@)[k]).raw.len() > 0 by {
                if k < before.len() {
                    assert(before[k].raw.len() > 0);
                }
            }
        }
        if is_at(input, stop, DOT) {
            proof {
                assert(s.subrange(pos as int, stop + 1) =~= s.subrange(pos as int, stop as int)
                    + seq![DOT]);
            }
            i = stop + 1;
        } else {
            return Ok((path, stop));
        }
    }
}

/// A header with the text around it spells the text it was read from.
pub proof fn lemma_header_text(
    s: Seq<u8>,
    lead: int,
    pos: int,
    close: int,
    stop: int,
    line: LineView,
)
    requires
        line matches LineView::Header { decor, path, array } && {
            let width: int = if array {
                2
            } else {
                1
            };
            &&& 0 <= lead <= pos
            &&& pos + width <= close
            &&& close + width <= stop <= s.len()
            &&& s[pos] == BRACKET_OPEN
            &&& s[close] == BRACKET_CLOSE
            &&& array ==> s[pos + 1] == BRACKET_OPEN && s[close + 1] == BRACKET_CLOSE
            &&& render_path(path) == s.subrange(pos + width, close)
            &&& decor == (DecorView {
                prefix: s.subrange(lead, pos),
                suffix: s.subrange(close + width, stop),
            })
        },
    ensures
        line.render() == s.subrange(lead, stop),
{
    let array = line->Header_array;
    let width: int = if array {
        2
    } else {
        1
    };
    assert(brackets(array, true) =~= s.subrange(pos, pos + width));
    assert(brackets(array, false) =~= s.subrange(close, close + width));
    assert(s.subrange(lead, stop) =~= s.subrange(lead, pos) + (s.subrange(pos, pos + width)
        + s.subrange(pos + width, close) + s.subrange(close, close + width)) + s.subrange(
        close + width,
        stop,
    ));
}

/// The text of a sequence with one more line.
pub proof fn lemma_render_lines_push(ls: Seq<LineView>, l: LineView)
    ensures
        render_lines(ls.push(l)) == render_lines(ls) + l.render(),
{
    assert(ls.push(l).drop_last() =~= ls);
}

/// Two neighbouring pieces of a text make one piece.
pub proof fn lemma_subrange_join(s: Seq<u8>, a: int, b: int, c: int)
    requires
        0 <= a <= b <= c <= s.len(),
    ensures
        s.subrange(a, c) == s.subrange(a, b) + s.subrange(b, c),
{
    assert(s.subrange(a, c) =~= s.subrange(a, b) + s.subrange(b, c));
}

/// Reads the header whose first bracket is at `pos`.
pub fn parse_header(input: &[u8], lead: usize, pos: usize) -> (r: Result<(Line, usize), Failure>)
    requires
        lead <= pos <= input@.len(),
    ensures
        agrees(r, spec_header(input@, lead as int, pos as int)),
        r matches Ok((line, end)) ==> {
            &&& pos < end <= input@.len()
            &&& line@.render() == input@.subrange(lead as int, end as int)
            &&& line@.wf()
        },
{
    let ghost s = input@;
    if !is_at(input, pos, BRACKET_OPEN) {
        return Err(Failure::NoMatch { at: pos, expected: Expected::Key });
    }
    let array = is_at(input, pos + 1, BRACKET_OPEN);
    let width: usize = if array {
        2
    } else {
        1
    };
    let (path, close) = match parse_header_keys(input, pos + width) {
        Ok(found) => found,
        Err(f) => {
            return Err(f);
        },
    };
    if !is_at(input, close, BRACKET_CLOSE) || (array && !is_at(input, close + 1, BRACKET_CLOSE)) {
        return Err(Failure::NoMatch { at: close, expected: Expected::HeaderClose });
    }
    let stop = match skip_line_rest(input, close + width) {
        Ok(stop) => stop,
        Err(at) => {
            return Err(Failure::NoMatch { at, expected: Expected::LineEnd });
        },
    };
    let decor = Decor {
        prefix: copy_range(input, lead, pos),
        suffix: copy_range(input, close + width, stop),
    };
    let line = Line::Header { decor, path, array };
    proof {
        lemma_header_text(s, lead as int, pos as int, close as int, stop as int, line@);
        assert(keys_written(line@->Header_path)) by {
            reveal(keys_written);
        }
    }
    Ok((line, stop))
}

/// Reads the line whose first byte is at `pos`.
pub fn parse_line(input: &[u8], lead: usize, pos: usize) -> (r: Result<(Line, usize), Failure>)
    requires
        lead <= pos <= input@.len(),
    ensures
        agrees(r, spec_line(input@, lead as int, pos as int)),
        r matches Ok((line, end)) ==> {
            &&& pos < end <= input@.len()
            &&& line@.render() == input@.subrange(lead as int, end as int)
            &&& line@.wf()
        },
{
    if is_at(input, pos, BRACKET_OPEN) {
        parse_header(input, lead, pos)
    } else {
        parse_keyval(input, lead, pos)
    }
}

/// Reads the lines of a document: the lines, and the text behind the last of
/// them. Together they are the whole text.
pub fn parse_lines(input: &[u8]) -> (r: Result<(Vec<Line>, Vec<u8>), Failure>)
    ensures
        match r {
            Ok((lines, trailing)) => {
                &&& spec_lines(input@, 0, Seq::empty()) == Ok::<
                    ((Seq<LineView>, Seq<u8>), int),
                    FailureView,
                >(((lines_view(lines@), trailing@), input@.len() as int))
                &&& render_lines(lines_view(lines@)) + trailing@ == input@
                &&& forall|i: int| 0 <= i < lines@.len() ==> (#[trigger] lines@[i])@.wf()
            },
            Err(f) => spec_lines(input@, 0, Seq::empty()) == Err::<
                ((Seq<LineView>, Seq<u8>), int),
                FailureView,
            >(f@),
        },
{
    let ghost s = input@;
    let len = input.len();
    let mut lines: Vec<Line> = Vec::new();
    let mut i: usize = 0;
    proof {
        assert(lines_view(lines@) =~= Seq::empty());
        assert(s.subrange(0, 0) =~= Seq::empty());
    }
    loop
        invariant
            s == input@,
            len == s.len(),
            0 <= i <= s.len(),
            spec_lines(s, 0, Seq::empty()) == spec_lines(s, i as int, lines_view(lines@)),
            s.subrange(0, i as int) == render_lines(lines_view(lines@)),
            forall|k: int| 0 <= k < lines@.len() ==> (#[trigger] lines@[k])@.wf(),
        decreases s.len() - i,
    {
        let ghost before = lines_view(lines@);
        let start = skip_trivia(input, i);
        if start >= len {
            let trailing = copy_range(input, i, start);
            proof {
                lemma_subrange_join(s, 0, i as int, start as int);
                assert(s.subrange(0, start as int) =~= s);
            }
            return Ok((lines, trailing));
        }
        match parse_line(input, i, start) {
            Ok((line, stop)) => {
                let ghost added = line@;
                lines.push(line);
                proof {
                    assert(lines_view(lines@) =~= before.push(added));
                    lemma_render_lines_push(before, added);
                    lemma_subrange_join(s, 0, i as int, stop as int);
                }
                i = stop;
            },
            Err(f) => {
                return Err(f);
            },
        }
    }
}

} // verus!

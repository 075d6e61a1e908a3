//! Values: scalars, arrays and inline tables, each with its decoration.

use crate::decor::{Decor, DecorView};
use crate::key::{Key, KeyView};
use crate::text::{
    bytes_eq, copy_bytes, BRACE_CLOSE, BRACE_OPEN, BRACKET_CLOSE, BRACKET_OPEN, COMMA, EQUALS,
};
use vstd::prelude::*;

verus! {

/// The tag of a value.
#[derive(Debug, Clone, Copy, PartialEq, Eq, Structural)]
pub enum ValueKind {
    String,
    Integer,
    Float,
    Boolean,
    Datetime,
    Array,
    InlineTable,
}

impl ValueKind {
    /// The name of the kind.
    pub open spec fn name_text(self) -> Seq<char> {
        match self {
            ValueKind::String => "String"@,
            ValueKind::Integer => "Integer"@,
            ValueKind::Float => "Float"@,
            ValueKind::Boolean => "Boolean"@,
            ValueKind::Datetime => "Datetime"@,
            ValueKind::Array => "Array"@,
            ValueKind::InlineTable => "InlineTable"@,
        }
    }

    /// The name of the kind, as errors give it.
    pub fn name(self) -> (r: &'static str)
        ensures
            r@ == self.name_text(),
    {
        match self {
            ValueKind::String => "String",
            ValueKind::Integer => "Integer",
            ValueKind::Float => "Float",
            ValueKind::Boolean => "Boolean",
            ValueKind::Datetime => "Datetime",
            ValueKind::Array => "Array",
            ValueKind::InlineTable => "InlineTable",
        }
    }
}

/// A value with the text it was written as.
///
/// Scalars keep their source text in `raw`; a float and a date-time are held
/// by that text alone.
#[allow(inconsistent_fields)]
#[derive(Debug, PartialEq, Eq)]
pub enum Value {
    String { decor: Decor, raw: Vec<u8>, value: Vec<u8> },
    Integer { decor: Decor, raw: Vec<u8>, value: i64 },
    Float { decor: Decor, raw: Vec<u8> },
    Boolean { decor: Decor, raw: Vec<u8>, value: bool },
    Datetime { decor: Decor, raw: Vec<u8> },
    Array(Array),
    InlineTable(InlineTable),
}

/// An ordered sequence of values of one kind.
#[derive(Debug, PartialEq, Eq)]
pub struct Array {
    pub values: Vec<Value>,
    /// Whitespace and comments before the closing bracket.
    pub trailing: Vec<u8>,
    /// Whether a comma follows the last element.
    pub trailing_comma: bool,
    /// Whether an element's decoration holds a line break.
    pub newlines: bool,
    pub decor: Decor,
}

/// One `key = value` pair of an inline table.
#[derive(Debug, PartialEq, Eq)]
pub struct InlineEntry {
    pub key: Key,
    pub value: Value,
}

/// A table written on one line, between braces.
#[derive(Debug, PartialEq, Eq)]
pub struct InlineTable {
    pub entries: Vec<InlineEntry>,
    /// Whitespace between the braces of a table without entries.
    pub preamble: Vec<u8>,
    pub decor: Decor,
}

/// A value as plain data.
#[allow(inconsistent_fields)]
pub enum ValueView {
    String { decor: DecorView, raw: Seq<u8>, value: Seq<u8> },
    Integer { decor: DecorView, raw: Seq<u8>, value: i64 },
    Float { decor: DecorView, raw: Seq<u8> },
    Boolean { decor: DecorView, raw: Seq<u8>, value: bool },
    Datetime { decor: DecorView, raw: Seq<u8> },
    Array(ArrayView),
    InlineTable(InlineTableView),
}

/// An array as plain data.
pub struct ArrayView {
    pub values: Seq<ValueView>,
    pub trailing: Seq<u8>,
    pub trailing_comma: bool,
    pub newlines: bool,
    pub decor: DecorView,
}

/// An inline-table entry as plain data.
pub struct InlineEntryView {
    pub key: KeyView,
    pub value: ValueView,
}

/// An inline table as plain data.
pub struct InlineTableView {
    pub entries: Seq<InlineEntryView>,
    pub preamble: Seq<u8>,
    pub decor: DecorView,
}

/// The views of a sequence of values, element by element.
pub open spec fn values_view(vs: Seq<Value>) -> Seq<ValueView>
    decreases vs,
{
    Seq::new(vs.len(), |i: int| if 0 <= i < vs.len() { vs[i].view() } else { arbitrary() })
}

/// The views of a sequence of inline-table entries, element by element.
pub open spec fn entries_view(es: Seq<InlineEntry>) -> Seq<InlineEntryView>
    decreases es,
{
    Seq::new(es.len(), |i: int| if 0 <= i < es.len() { es[i].view() } else { arbitrary() })
}

impl View for Value {
    type V = ValueView;

    open spec fn view(&self) -> ValueView
        decreases self,
    {
        match self {
            Value::String { decor, raw, value } => ValueView::String {
                decor: decor@,
                raw: raw@,
                value: value@,
            },
            Value::Integer { decor, raw, value } => ValueView::Integer {
                decor: decor@,
                raw: raw@,
                value: *value,
            },
            Value::Float { decor, raw } => ValueView::Float { decor: decor@, raw: raw@ },
            Value::Boolean { decor, raw, value } => ValueView::Boolean {
                decor: decor@,
                raw: raw@,
                value: *value,
            },
            Value::Datetime { decor, raw } => ValueView::Datetime { decor: decor@, raw: raw@ },
            Value::Array(a) => ValueView::Array(a.view()),
            Value::InlineTable(t) => ValueView::InlineTable(t.view()),
        }
    }
}

impl View for Array {
    type V = ArrayView;

    open spec fn view(&self) -> ArrayView
        decreases self,
    {
        ArrayView {
            values: values_view(self.values@),
            trailing: self.trailing@,
            trailing_comma: self.trailing_comma,
            newlines: self.newlines,
            decor: self.decor@,
        }
    }
}

impl View for InlineEntry {
    type V = InlineEntryView;

    open spec fn view(&self) -> InlineEntryView
        decreases self,
    {
        InlineEntryView { key: self.key@, value: self.value.view() }
    }
}

impl View for InlineTable {
    type V = InlineTableView;

    open spec fn view(&self) -> InlineTableView
        decreases self,
    {
        InlineTableView {
            entries: entries_view(self.entries@),
            preamble: self.preamble@,
            decor: self.decor@,
        }
    }
}

/// Whether the decoration of one of `vs` holds a line break.
pub open spec fn any_newline(vs: Seq<ValueView>) -> bool {
    exists|i: int| 0 <= i < vs.len() && (#[trigger] vs[i]).decor().has_newline()
}

/// The texts of the values, with a comma between neighbours.
pub open spec fn render_values(vs: Seq<ValueView>) -> Seq<u8>
    decreases vs, 0int,
{
    if vs.len() == 0 {
        Seq::empty()
    } else if vs.len() == 1 {
        vs[0].render()
    } else {
        render_values(vs.drop_last()) + seq![COMMA] + vs.last().render()
    }
}

/// The texts of the entries, with a comma between neighbours.
pub open spec fn render_entries(es: Seq<InlineEntryView>) -> Seq<u8>
    decreases es, 0int,
{
    if es.len() == 0 {
        Seq::empty()
    } else if es.len() == 1 {
        es[0].render()
    } else {
        render_entries(es.drop_last()) + seq![COMMA] + es.last().render()
    }
}

impl ValueView {
    /// The tag of the value.
    pub open spec fn kind(self) -> ValueKind {
        match self {
            ValueView::String { .. } => ValueKind::String,
            ValueView::Integer { .. } => ValueKind::Integer,
            ValueView::Float { .. } => ValueKind::Float,
            ValueView::Boolean { .. } => ValueKind::Boolean,
            ValueView::Datetime { .. } => ValueKind::Datetime,
            ValueView::Array(_) => ValueKind::Array,
            ValueView::InlineTable(_) => ValueKind::InlineTable,
        }
    }

    /// The decoration of the value.
    pub open spec fn decor(self) -> DecorView {
        match self {
            ValueView::String { decor, .. } => decor,
            ValueView::Integer { decor, .. } => decor,
            ValueView::Float { decor, .. } => decor,
            ValueView::Boolean { decor, .. } => decor,
            ValueView::Datetime { decor, .. } => decor,
            ValueView::Array(a) => a.decor,
            ValueView::InlineTable(t) => t.decor,
        }
    }

    /// The same value with another decoration.
    pub open spec fn decorated(self, d: DecorView) -> ValueView {
        match self {
            ValueView::String { decor, raw, value } => ValueView::String { decor: d, raw, value },
            ValueView::Integer { decor, raw, value } => ValueView::Integer { decor: d, raw, value },
            ValueView::Float { decor, raw } => ValueView::Float { decor: d, raw },
            ValueView::Boolean { decor, raw, value } => ValueView::Boolean { decor: d, raw, value },
            ValueView::Datetime { decor, raw } => ValueView::Datetime { decor: d, raw },
            ValueView::Array(a) => ValueView::Array(ArrayView { decor: d, ..a }),
            ValueView::InlineTable(t) => ValueView::InlineTable(InlineTableView { decor: d, ..t }),
        }
    }

    /// The text of the value without its decoration.
    pub open spec fn body(self) -> Seq<u8>
        decreases self, 0int,
    {
        match self {
            ValueView::String { raw, .. } => raw,
            ValueView::Integer { raw, .. } => raw,
            ValueView::Float { raw, .. } => raw,
            ValueView::Boolean { raw, .. } => raw,
            ValueView::Datetime { raw, .. } => raw,
            ValueView::Array(a) => seq![BRACKET_OPEN] + render_values(a.values) + (if a.trailing_comma {
                seq![COMMA]
            } else {
                Seq::empty()
            }) + a.trailing + seq![BRACKET_CLOSE],
            ValueView::InlineTable(t) => seq![BRACE_OPEN] + t.preamble + render_entries(t.entries)
                + seq![BRACE_CLOSE],
        }
    }

    /// The text of the value: what stood before it, the value, what stood
    /// after it.
    pub open spec fn render(self) -> Seq<u8>
        decreases self, 1int,
    {
        self.decor().prefix + self.body() + self.decor().suffix
    }

    /// Every array below is of one kind and knows of the line breaks around
    /// its elements, and no inline table binds a name twice.
    pub open spec fn wf(self) -> bool
        decreases self,
    {
        match self {
            ValueView::Array(a) => a.wf(),
            ValueView::InlineTable(t) => t.wf(),
            _ => true,
        }
    }
}

impl ArrayView {
    /// An array without elements or text.
    pub open spec fn empty() -> ArrayView {
        ArrayView {
            values: Seq::empty(),
            trailing: Seq::empty(),
            trailing_comma: false,
            newlines: false,
            decor: DecorView::empty(),
        }
    }

    /// All elements carry one tag.
    pub open spec fn homogeneous(self) -> bool {
        forall|i: int| 0 <= i < self.values.len() ==> (#[trigger] self.values[i]).kind() == self.values[0].kind()
    }

    /// The tag that all elements carry, if there is an element.
    pub open spec fn value_type(self) -> Option<ValueKind> {
        if self.values.len() == 0 {
            None
        } else {
            Some(self.values[0].kind())
        }
    }

    /// The elements are of one kind and well formed themselves, and
    /// `newlines` tells whether the decoration of one of them holds a line
    /// break.
    pub open spec fn wf(self) -> bool
        decreases self,
    {
        &&& self.homogeneous()
        &&& self.newlines == any_newline(self.values)
        &&& forall|i: int| 0 <= i < self.values.len() ==> (#[trigger] self.values[i]).wf()
    }

    /// The text of the array with its decoration.
    pub open spec fn render(self) -> Seq<u8> {
        ValueView::Array(self).render()
    }
}

impl InlineEntryView {
    /// The text of the entry: key, `=`, value.
    pub open spec fn render(self) -> Seq<u8>
        decreases self, 0int,
    {
        self.key.render() + seq![EQUALS] + self.value.render()
    }
}

impl InlineTableView {
    /// An inline table without entries or text.
    pub open spec fn empty() -> InlineTableView {
        InlineTableView { entries: Seq::empty(), preamble: Seq::empty(), decor: DecorView::empty() }
    }

    /// No two entries have the same name.
    pub open spec fn distinct_names(self) -> bool {
        forall|i: int, j: int|
            0 <= i < j < self.entries.len() ==> (#[trigger] self.entries[i]).key.name != (
            #[trigger] self.entries[j]).key.name
    }

    /// The names are distinct and the values well formed.
    pub open spec fn wf(self) -> bool
        decreases self,
    {
        &&& self.distinct_names()
        &&& forall|i: int| 0 <= i < self.entries.len() ==> (#[trigger] self.entries[i]).value.wf()
    }

    /// The text of the inline table with its decoration.
    pub open spec fn render(self) -> Seq<u8> {
        ValueView::InlineTable(self).render()
    }
}

/// Appends the texts of the values, separated by commas, to `out`.
pub fn write_values(vals: &Vec<Value>, out: &mut Vec<u8>)
    ensures
        final(out)@ == old(out)@ + render_values(values_view(vals@)),
    decreases vals,
{
    let ghost base = out@;
    let ghost all = values_view(vals@);
    let mut i: usize = 0;
    while i < vals.len()
        invariant
            0 <= i <= vals.len(),
            all == values_view(vals@),
            out@ == base + render_values(all.subrange(0, i as int)),
        decreases vals.len() - i,
    {
        proof {
            let s1 = all.subrange(0, i as int + 1);
            assert(s1.drop_last() == all.subrange(0, i as int));
            assert(s1.last() == vals@[i as int]@);
            vstd::std_specs::vec::axiom_vec_index_decreases(*vals, i as int);
        }
        if i > 0 {
            out.push(COMMA);
        }
        vals[i].write_to(out);
        i += 1;
    }
    assert(all.subrange(0, i as int) == all);
}

/// Appends the texts of the entries, separated by commas, to `out`.
pub fn write_entries(entries: &Vec<InlineEntry>, out: &mut Vec<u8>)
    ensures
        final(out)@ == old(out)@ + render_entries(entries_view(entries@)),
    decreases entries,
{
    let ghost base = out@;
    let ghost all = entries_view(entries@);
    let mut i: usize = 0;
    while i < entries.len()
        invariant
            0 <= i <= entries.len(),
            all == entries_view(entries@),
            out@ == base + render_entries(all.subrange(0, i as int)),
        decreases entries.len() - i,
    {
        proof {
            let s1 = all.subrange(0, i as int + 1);
            assert(s1.drop_last() == all.subrange(0, i as int));
            assert(s1.last() == entries@[i as int]@);
            vstd::std_specs::vec::axiom_vec_index_decreases(*entries, i as int);
        }
        if i > 0 {
            out.push(COMMA);
        }
        let ghost before = out@;
        entries[i].key.write_to(out);
        out.push(EQUALS);
        entries[i].value.write_to(out);
        assert(out@ =~= before + entries@[i as int]@.render());
        i += 1;
    }
    assert(all.subrange(0, i as int) == all);
}

/// Copies of the values.
pub fn duplicate_values(vals: &Vec<Value>) -> (out: Vec<Value>)
    ensures
        values_view(out@) == values_view(vals@),
    decreases vals,
{
    let mut out: Vec<Value> = Vec::new();
    let mut i: usize = 0;
    while i < vals.len()
        invariant
            0 <= i <= vals.len(),
            out@.len() == i,
            forall|k: int| 0 <= k < i ==> (#[trigger] out@[k])@ == vals@[k]@,
        decreases vals.len() - i,
    {
        proof {
            vstd::std_specs::vec::axiom_vec_index_decreases(*vals, i as int);
        }
        out.push(vals[i].duplicate());
        i += 1;
    }
    assert(values_view(out@) =~= values_view(vals@));
    out
}

/// Copies of the entries.
pub fn duplicate_entries(entries: &Vec<InlineEntry>) -> (out: Vec<InlineEntry>)
    ensures
        entries_view(out@) == entries_view(entries@),
    decreases entries,
{
    let mut out: Vec<InlineEntry> = Vec::new();
    let mut i: usize = 0;
    while i < entries.len()
        invariant
            0 <= i <= entries.len(),
            out@.len() == i,
            forall|k: int| 0 <= k < i ==> (#[trigger] out@[k])@ == entries@[k]@,
        decreases entries.len() - i,
    {
        proof {
            vstd::std_specs::vec::axiom_vec_index_decreases(*entries, i as int);
        }
        let entry = InlineEntry {
            key: entries[i].key.duplicate(),
            value: entries[i].value.duplicate(),
        };
        out.push(entry);
        i += 1;
    }
    assert(entries_view(out@) =~= entries_view(entries@));
    out
}

/// Tells whether all of the values are well formed.
pub fn values_well_formed(vals: &Vec<Value>) -> (r: bool)
    ensures
        r == (forall|i: int| 0 <= i < vals@.len() ==> (#[trigger] values_view(vals@)[i]).wf()),
    decreases vals,
{
    let mut i: usize = 0;
    while i < vals.len()
        invariant
            0 <= i <= vals.len(),
            forall|k: int| 0 <= k < i ==> (#[trigger] values_view(vals@)[k]).wf(),
        decreases vals.len() - i,
    {
        proof {
            vstd::std_specs::vec::axiom_vec_index_decreases(*vals, i as int);
        }
        if !vals[i].is_well_formed() {
            assert(!values_view(vals@)[i as int].wf());
            return false;
        }
        i += 1;
    }
    true
}

/// Tells whether all of the values carry one tag.
pub fn values_of_one_kind(vals: &Vec<Value>) -> (r: bool)
    ensures
        r == (forall|i: int|
            0 <= i < vals@.len() ==> (#[trigger] values_view(vals@)[i]).kind() == values_view(
                vals@,
            )[0].kind()),
{
    if vals.len() == 0 {
        return true;
    }
    let first = vals[0].kind();
    let mut i: usize = 1;
    while i < vals.len()
        invariant
            1 <= i <= vals.len(),
            first == values_view(vals@)[0].kind(),
            forall|k: int| 0 <= k < i ==> (#[trigger] values_view(vals@)[k]).kind() == first,
        decreases vals.len() - i,
    {
        if vals[i].kind() != first {
            assert(values_view(vals@)[i as int].kind() != first);
            return false;
        }
        i += 1;
    }
    true
}

/// Tells whether the decoration of one of the values holds a line break.
pub fn values_have_newline(vals: &Vec<Value>) -> (r: bool)
    ensures
        r == any_newline(values_view(vals@)),
{
    let mut i: usize = 0;
    while i < vals.len()
        invariant
            0 <= i <= vals.len(),
            forall|k: int| 0 <= k < i ==> !(#[trigger] values_view(vals@)[k]).decor().has_newline(),
        decreases vals.len() - i,
    {
        if vals[i].decor().contains_newline() {
            assert(values_view(vals@)[i as int].decor().has_newline());
            return true;
        }
        i += 1;
    }
    false
}

/// Tells whether all of the entries hold well-formed values.
pub fn entries_well_formed(entries: &Vec<InlineEntry>) -> (r: bool)
    ensures
        r == (forall|i: int|
            0 <= i < entries@.len() ==> (#[trigger] entries_view(entries@)[i]).value.wf()),
    decreases entries,
{
    let mut i: usize = 0;
    while i < entries.len()
        invariant
            0 <= i <= entries.len(),
            forall|k: int| 0 <= k < i ==> (#[trigger] entries_view(entries@)[k]).value.wf(),
        decreases entries.len() - i,
    {
        proof {
            vstd::std_specs::vec::axiom_vec_index_decreases(*entries, i as int);
        }
        if !entries[i].value.is_well_formed() {
            assert(!entries_view(entries@)[i as int].value.wf());
            return false;
        }
        i += 1;
    }
    true
}

/// Tells whether no two of the entries have the same name.
pub fn entries_have_distinct_names(entries: &Vec<InlineEntry>) -> (r: bool)
    ensures
        r == (forall|i: int, j: int|
            0 <= i < j < entries@.len() ==> (#[trigger] entries_view(entries@)[i]).key.name != (
            #[trigger] entries_view(entries@)[j]).key.name),
{
    let ghost es = entries_view(entries@);
    let mut j: usize = 0;
    while j < entries.len()
        invariant
            0 <= j <= entries.len(),
            es == entries_view(entries@),
            forall|a: int, b: int|
                0 <= a < b < j ==> (#[trigger] es[a]).key.name != (#[trigger] es[b]).key.name,
        decreases entries.len() - j,
    {
        let mut i: usize = 0;
        while i < j
            invariant
                0 <= i <= j < entries.len(),
                es == entries_view(entries@),
                forall|a: int| 0 <= a < i ==> (#[trigger] es[a]).key.name != es[j as int].key.name,
            decreases j - i,
        {
            if bytes_eq(entries[i].key.name.as_slice(), entries[j].key.name.as_slice()) {
                assert(es[i as int].key.name == es[j as int].key.name);
                return false;
            }
            i += 1;
        }
        j += 1;
    }
    true
}

impl Value {
    /// A copy of this value, with everything below it.
    pub fn duplicate(&self) -> (v: Value)
        ensures
            v@ == self@,
        decreases self,
    {
        match self {
            Value::String { decor, raw, value } => Value::String {
                decor: decor.duplicate(),
                raw: copy_bytes(raw.as_slice()),
                value: copy_bytes(value.as_slice()),
            },
            Value::Integer { decor, raw, value } => Value::Integer {
                decor: decor.duplicate(),
                raw: copy_bytes(raw.as_slice()),
                value: *value,
            },
            Value::Float { decor, raw } => Value::Float {
                decor: decor.duplicate(),
                raw: copy_bytes(raw.as_slice()),
            },
            Value::Boolean { decor, raw, value } => Value::Boolean {
                decor: decor.duplicate(),
                raw: copy_bytes(raw.as_slice()),
                value: *value,
            },
            Value::Datetime { decor, raw } => Value::Datetime {
                decor: decor.duplicate(),
                raw: copy_bytes(raw.as_slice()),
            },
            Value::Array(a) => Value::Array(
                Array {
                    values: duplicate_values(&a.values),
                    trailing: copy_bytes(a.trailing.as_slice()),
                    trailing_comma: a.trailing_comma,
                    newlines: a.newlines,
                    decor: a.decor.duplicate(),
                },
            ),
            Value::InlineTable(t) => Value::InlineTable(
                InlineTable {
                    entries: duplicate_entries(&t.entries),
                    preamble: copy_bytes(t.preamble.as_slice()),
                    decor: t.decor.duplicate(),
                },
            ),
        }
    }

    /// Tells whether the value is well formed: every array below is of one
    /// kind and knows of the line breaks around its elements, and no inline
    /// table binds a name twice.
    pub fn is_well_formed(&self) -> (r: bool)
        ensures
            r == self@.wf(),
        decreases self,
    {
        match self {
            Value::Array(a) => values_of_one_kind(&a.values) && a.newlines == values_have_newline(
                &a.values,
            ) && values_well_formed(&a.values),
            Value::InlineTable(t) => entries_have_distinct_names(&t.entries) && entries_well_formed(
                &t.entries,
            ),
            _ => true,
        }
    }

    /// The tag of the value.
    pub fn kind(&self) -> (k: ValueKind)
        ensures
            k == self@.kind(),
    {
        match self {
            Value::String { .. } => ValueKind::String,
            Value::Integer { .. } => ValueKind::Integer,
            Value::Float { .. } => ValueKind::Float,
            Value::Boolean { .. } => ValueKind::Boolean,
            Value::Datetime { .. } => ValueKind::Datetime,
            Value::Array(_) => ValueKind::Array,
            Value::InlineTable(_) => ValueKind::InlineTable,
        }
    }

    /// The decoration of the value.
    pub fn decor(&self) -> (d: &Decor)
        ensures
            d@ == self@.decor(),
    {
        match self {
            Value::String { decor, .. } => decor,
            Value::Integer { decor, .. } => decor,
            Value::Float { decor, .. } => decor,
            Value::Boolean { decor, .. } => decor,
            Value::Datetime { decor, .. } => decor,
            Value::Array(a) => &a.decor,
            Value::InlineTable(t) => &t.decor,
        }
    }

    /// Gives the value the decoration `d`.
    pub fn decorate(&mut self, d: Decor)
        ensures
            final(self)@ == old(self)@.decorated(d@),
    {
        match self {
            Value::String { decor, .. } => {
                *decor = d;
            },
            Value::Integer { decor, .. } => {
                *decor = d;
            },
            Value::Float { decor, .. } => {
                *decor = d;
            },
            Value::Boolean { decor, .. } => {
                *decor = d;
            },
            Value::Datetime { decor, .. } => {
                *decor = d;
            },
            Value::Array(a) => {
                a.decor = d;
            },
            Value::InlineTable(t) => {
                t.decor = d;
            },
        }
    }

    /// The same value with the decoration `d`.
    pub fn decorated(self, d: Decor) -> (v: Value)
        ensures
            v@ == self@.decorated(d@),
    {
        match self {
            Value::String { decor, raw, value } => Value::String { decor: d, raw, value },
            Value::Integer { decor, raw, value } => Value::Integer { decor: d, raw, value },
            Value::Float { decor, raw } => Value::Float { decor: d, raw },
            Value::Boolean { decor, raw, value } => Value::Boolean { decor: d, raw, value },
            Value::Datetime { decor, raw } => Value::Datetime { decor: d, raw },
            Value::Array(a) => Value::Array(
                Array {
                    values: a.values,
                    trailing: a.trailing,
                    trailing_comma: a.trailing_comma,
                    newlines: a.newlines,
                    decor: d,
                },
            ),
            Value::InlineTable(t) => Value::InlineTable(
                InlineTable { entries: t.entries, preamble: t.preamble, decor: d },
            ),
        }
    }

    /// Appends the text of the value, decoration included, to `out`.
    pub fn write_to(&self, out: &mut Vec<u8>)
        ensures
            final(out)@ == old(out)@ + self@.render(),
        decreases self,
    {
        match self {
            Value::String { decor, raw, .. } => {
                out.extend_from_slice(decor.prefix.as_slice());
                out.extend_from_slice(raw.as_slice());
                out.extend_from_slice(decor.suffix.as_slice());
            },
            Value::Integer { decor, raw, .. } => {
                out.extend_from_slice(decor.prefix.as_slice());
                out.extend_from_slice(raw.as_slice());
                out.extend_from_slice(decor.suffix.as_slice());
            },
            Value::Float { decor, raw } => {
                out.extend_from_slice(decor.prefix.as_slice());
                out.extend_from_slice(raw.as_slice());
                out.extend_from_slice(decor.suffix.as_slice());
            },
            Value::Boolean { decor, raw, .. } => {
                out.extend_from_slice(decor.prefix.as_slice());
                out.extend_from_slice(raw.as_slice());
                out.extend_from_slice(decor.suffix.as_slice());
            },
            Value::Datetime { decor, raw } => {
                out.extend_from_slice(decor.prefix.as_slice());
                out.extend_from_slice(raw.as_slice());
                out.extend_from_slice(decor.suffix.as_slice());
            },
            Value::Array(a) => {
                out.extend_from_slice(a.decor.prefix.as_slice());
                out.push(BRACKET_OPEN);
                write_values(&a.values, out);
                if a.trailing_comma {
                    out.push(COMMA);
                }
                out.extend_from_slice(a.trailing.as_slice());
                out.push(BRACKET_CLOSE);
                out.extend_from_slice(a.decor.suffix.as_slice());
            },
            Value::InlineTable(t) => {
                out.extend_from_slice(t.decor.prefix.as_slice());
                out.push(BRACE_OPEN);
                out.extend_from_slice(t.preamble.as_slice());
                write_entries(&t.entries, out);
                out.push(BRACE_CLOSE);
                out.extend_from_slice(t.decor.suffix.as_slice());
            },
        }
    }

    /// The text of the value, decoration included.
    pub fn to_bytes(&self) -> (out: Vec<u8>)
        ensures
            out@ == self@.render(),
    {
        let mut out: Vec<u8> = Vec::new();
        self.write_to(&mut out);
        out
    }
}

} // verus!

//! Looking things up in a document and changing it.

use crate::decor::{Decor, DecorView};
use crate::document::{Document, DocumentView};
use crate::document_proofs::{
    lemma_made_explicit, lemma_with_replaced, lemma_with_value_wf, lemma_without_entry,
};
use crate::errors::{CustomError, CustomErrorView};
use crate::key::{Key, KeyView};
use crate::parser::value::lemma_decorated;
use crate::table::{headed, EntryView, Item, ItemView, Table, TableKind, TableView};
use crate::text::{copy_bytes, LF, SPACE};
use crate::value::{
    InlineEntry, InlineEntryView, InlineTable, InlineTableView, Value, ValueView,
};
use vstd::prelude::*;

verus! {

/// Whether a text ends with a line break.
pub open spec fn ends_line(s: Seq<u8>) -> bool {
    s.len() > 0 && s.last() == LF
}

/// A line break where `open` says that the line before has none.
pub open spec fn break_if(open: bool) -> Seq<u8> {
    if open {
        seq![LF]
    } else {
        Seq::empty()
    }
}

/// The decoration of the key of a new line: a space behind it, and before it
/// the line break that the line before lacks.
pub open spec fn line_key_decor(open: bool) -> DecorView {
    DecorView { prefix: break_if(open), suffix: seq![SPACE] }
}

/// The decoration of a new key in an inline table: a space behind it.
pub open spec fn inline_key_decor() -> DecorView {
    DecorView { prefix: Seq::empty(), suffix: seq![SPACE] }
}

/// The decoration of the value of a new line: a space before it, a line break
/// behind it.
pub open spec fn line_value_decor() -> DecorView {
    DecorView { prefix: seq![SPACE], suffix: seq![LF] }
}

/// The decoration of a new header: a line break behind it, and before it the
/// line break that the line before lacks.
pub open spec fn header_decor(open: bool) -> DecorView {
    DecorView { prefix: break_if(open), suffix: seq![LF] }
}

/// The value of the last of the entries that holds one.
pub open spec fn last_value(es: Seq<EntryView>) -> Option<ValueView>
    decreases es.len(),
{
    if es.len() == 0 {
        None
    } else {
        match es.last().item {
            ItemView::Value(v) => Some(v),
            _ => last_value(es.drop_last()),
        }
    }
}

impl TableView {
    /// Whether the last line of the table, its header where it holds no
    /// value, lacks its line break.
    pub open spec fn open_ended(self) -> bool {
        match last_value(self.entries) {
            Some(v) => !ends_line(v.decor().suffix),
            None => headed(self.kind) && !ends_line(self.decor.suffix),
        }
    }
}

/// Tells whether a text ends with a line break.
pub fn ends_with_break(s: &[u8]) -> (r: bool)
    ensures
        r == ends_line(s@),
{
    s.len() > 0 && s[s.len() - 1] == LF
}

/// Makes a line break where `open` says that the line before has none.
pub fn make_break_if(open: bool) -> (v: Vec<u8>)
    ensures
        v@ == break_if(open),
{
    let mut v: Vec<u8> = Vec::new();
    if open {
        v.push(LF);
    }
    v
}

/// Makes the decoration of the key of a new line.
pub fn make_line_key_decor(open: bool) -> (d: Decor)
    ensures
        d@ == line_key_decor(open),
{
    let mut suffix: Vec<u8> = Vec::new();
    suffix.push(SPACE);
    Decor { prefix: make_break_if(open), suffix }
}

/// Makes the decoration of a new key in an inline table.
pub fn make_inline_key_decor() -> (d: Decor)
    ensures
        d@ == inline_key_decor(),
{
    let mut suffix: Vec<u8> = Vec::new();
    suffix.push(SPACE);
    Decor { prefix: Vec::new(), suffix }
}

/// Makes the decoration of the value of a new line.
pub fn make_line_value_decor() -> (d: Decor)
    ensures
        d@ == line_value_decor(),
{
    let mut prefix: Vec<u8> = Vec::new();
    prefix.push(SPACE);
    let mut suffix: Vec<u8> = Vec::new();
    suffix.push(LF);
    Decor { prefix, suffix }
}

/// Makes the decoration of a new header.
pub fn make_header_decor(open: bool) -> (d: Decor)
    ensures
        d@ == header_decor(open),
{
    let mut suffix: Vec<u8> = Vec::new();
    suffix.push(LF);
    Decor { prefix: make_break_if(open), suffix }
}

impl Table {
    /// Tells whether the last line of the table, its header where it holds
    /// no value, lacks its line break.
    pub fn is_open_ended(&self) -> (r: bool)
        ensures
            r == self@.open_ended(),
    {
        let ghost es = self@.entries;
        let mut i: usize = self.entries.len();
        proof {
            assert(es.subrange(0, i as int) =~= es);
        }
        while i > 0
            invariant
                0 <= i <= self.entries@.len(),
                es == self@.entries,
                last_value(es) == last_value(es.subrange(0, i as int)),
            decreases i,
        {
            i -= 1;
            proof {
                let upto = es.subrange(0, i as int + 1);
                assert(upto.drop_last() =~= es.subrange(0, i as int));
                assert(upto.last() == es[i as int]);
            }
            match &self.entries[i].item {
                Item::Value(v) => {
                    return !ends_with_break(v.decor().suffix());
                },
                _ => {},
            }
        }
        let with_header = match self.kind {
            TableKind::Header | TableKind::ArrayElement => true,
            _ => false,
        };
        with_header && !ends_with_break(self.decor.suffix.as_slice())
    }
}

impl DocumentView {
    /// The document in which the table at `t` has a header: the document
    /// itself, unless the table is implicit.
    pub open spec fn with_header(self, t: int) -> DocumentView {
        if self.tables[t].kind == TableKind::Implicit {
            self.made_explicit(t, header_decor(self.open_end()))
        } else {
            self
        }
    }

    /// Whether the last line of the document, in the order in which the
    /// headers were written, lacks its line break.
    pub open spec fn open_end(self) -> bool {
        self.tables[self.order.last() as int].open_ended()
    }

    /// The value bound to `name` in the table at `t`.
    pub open spec fn value_at(self, t: int, name: Seq<u8>) -> Option<ValueView> {
        match self.tables[t].find(name) {
            Some(e) => match self.tables[t].entries[e].item {
                ItemView::Value(v) => Some(v),
                _ => None,
            },
            None => None,
        }
    }

    /// The place of the table bound to `name` in the table at `t`.
    pub open spec fn table_at(self, t: int, name: Seq<u8>) -> Option<usize> {
        match self.tables[t].find(name) {
            Some(e) => match self.tables[t].entries[e].item {
                ItemView::Table(c) => Some(c),
                _ => None,
            },
            None => None,
        }
    }

    /// The places of the tables of the array of tables bound to `name` in the
    /// table at `t`.
    pub open spec fn array_at(self, t: int, name: Seq<u8>) -> Option<Seq<usize>> {
        match self.tables[t].find(name) {
            Some(e) => match self.tables[t].entries[e].item {
                ItemView::ArrayOfTables(v) => Some(v),
                _ => None,
            },
            None => None,
        }
    }
}

impl Document {
    /// Tells whether the last line of the document, in the order in which
    /// the headers were written, lacks its line break.
    pub fn has_open_end(&self) -> (r: bool)
        requires
            self@.wf(),
        ensures
            r == self@.open_end(),
    {
        proof {
            assert(self@.listed_ok(self@.order.len() - 1));
        }
        let last = self.order[self.order.len() - 1];
        self.tables[last].is_open_ended()
    }

    /// The place of the root table.
    pub fn root(&self) -> (t: usize)
        ensures
            t == 0,
    {
        0
    }

    /// The number of tables, the root and implicit ones included.
    pub fn table_count(&self) -> (n: usize)
        ensures
            n == self@.tables.len(),
    {
        self.tables.len()
    }

    /// The number of entries of the table at `t`; `None` where there is no
    /// such table.
    pub fn entry_count(&self, t: usize) -> (r: Option<usize>)
        ensures
            match r {
                Some(n) => t < self@.tables.len() && n == self@.tables[t as int].entries.len(),
                None => t >= self@.tables.len(),
            },
    {
        if t < self.tables.len() {
            Some(self.tables[t].entries.len())
        } else {
            None
        }
    }

    /// The key of the entry `e` of the table at `t`.
    pub fn key_at(&self, t: usize, e: usize) -> (r: Option<&Key>)
        ensures
            match r {
                Some(k) => t < self@.tables.len() && e < self@.tables[t as int].entries.len()
                    && k@ == self@.tables[t as int].entries[e as int].key,
                None => t >= self@.tables.len() || e >= self@.tables[t as int].entries.len(),
            },
    {
        if t < self.tables.len() && e < self.tables[t].entries.len() {
            Some(&self.tables[t].entries[e].key)
        } else {
            None
        }
    }

    /// The place, among the entries of the table at `t`, of the entry with
    /// the name `name`.
    pub fn find(&self, t: usize, name: &[u8]) -> (r: Option<usize>)
        requires
            self@.wf(),
        ensures
            t < self@.tables.len() ==> match r {
                Some(e) => self@.tables[t as int].find(name@) == Some(e as int) && e
                    < self@.tables[t as int].entries.len() && self@.tables[t as int].entries[e as int].key.name
                    == name@,
                None => self@.tables[t as int].find(name@).is_none(),
            },
            t >= self@.tables.len() ==> r.is_none(),
    {
        if t >= self.tables.len() {
            return None;
        }
        proof {
            assert(self@.table_ok(t as int));
        }
        self.tables[t].find(name)
    }

    /// The value bound to `name` in the table at `t`.
    pub fn get_value(&self, t: usize, name: &[u8]) -> (r: Option<&Value>)
        requires
            self@.wf(),
        ensures
            t < self@.tables.len() ==> match r {
                Some(v) => self@.value_at(t as int, name@) == Some(v@),
                None => self@.value_at(t as int, name@).is_none(),
            },
            t >= self@.tables.len() ==> r.is_none(),
    {
        match self.find(t, name) {
            Some(e) => match &self.tables[t].entries[e].item {
                Item::Value(v) => Some(v),
                _ => None,
            },
            None => None,
        }
    }

    /// The place of the table bound to `name` in the table at `t`.
    pub fn get_table(&self, t: usize, name: &[u8]) -> (r: Option<usize>)
        requires
            self@.wf(),
        ensures
            t < self@.tables.len() ==> r == self@.table_at(t as int, name@),
            t >= self@.tables.len() ==> r.is_none(),
            r matches Some(c) ==> c < self@.tables.len(),
    {
        match self.find(t, name) {
            Some(e) => {
                proof {
                    assert(self@.table_ok(t as int));
                    assert(self@.item_ok(t as int, self@.tables[t as int].entries[e as int].item));
                }
                match &self.tables[t].entries[e].item {
                    Item::Table(c) => Some(*c),
                    _ => None,
                }
            },
            None => None,
        }
    }

    /// The number of tables of the array of tables bound to `name` in the
    /// table at `t`.
    pub fn array_len(&self, t: usize, name: &[u8]) -> (r: Option<usize>)
        requires
            self@.wf(),
        ensures
            t < self@.tables.len() ==> match r {
                Some(n) => self@.array_at(t as int, name@) matches Some(v) && v.len() == n,
                None => self@.array_at(t as int, name@).is_none(),
            },
            t >= self@.tables.len() ==> r.is_none(),
    {
        match self.find(t, name) {
            Some(e) => match &self.tables[t].entries[e].item {
                Item::ArrayOfTables(v) => Some(v.len()),
                _ => None,
            },
            None => None,
        }
    }

    /// The place of the table number `index` of the array of tables bound to
    /// `name` in the table at `t`.
    pub fn get_array_table(&self, t: usize, name: &[u8], index: usize) -> (r: Option<usize>)
        requires
            self@.wf(),
        ensures
            t < self@.tables.len() ==> match r {
                Some(c) => self@.array_at(t as int, name@) matches Some(v) && index < v.len()
                    && v[index as int] == c && c < self@.tables.len(),
                None => match self@.array_at(t as int, name@) {
                    Some(v) => index >= v.len(),
                    None => true,
                },
            },
            t >= self@.tables.len() ==> r.is_none(),
    {
        match self.find(t, name) {
            Some(e) => {
                proof {
                    assert(self@.table_ok(t as int));
                    assert(self@.item_ok(t as int, self@.tables[t as int].entries[e as int].item));
                }
                match &self.tables[t].entries[e].item {
                    Item::ArrayOfTables(v) => {
                        if index < v.len() {
                            proof {
                                assert(self@.element_ok(t as int, v@[index as int]));
                            }
                            Some(v[index])
                        } else {
                            None
                        }
                    },
                    _ => None,
                }
            },
            None => None,
        }
    }

    /// Binds `name` to `value` in the table at `t`.
    ///
    /// Where the name is bound to a value, the new value takes its place and
    /// its decoration, and the old value is returned; the key and the order
    /// of the entries stay. Where the name is free, a new line `name = value`
    /// comes behind the entries of the table, and an implicit table gets a
    /// header first; where the line before lacks its line break, the new line
    /// brings it. Where the name is bound to a table or an array of
    /// tables, or where there is no table at `t` or it was taken out of the
    /// document, nothing changes.
    pub fn insert_value(&mut self, t: usize, name: &[u8], value: Value) -> (r: Result<
        Option<Value>,
        CustomError,
    >)
        requires
            old(self)@.wf(),
            value@.wf(),
        ensures
            final(self)@.wf(),
            match r {
                Ok(None) => {
                    &&& t < old(self)@.tables.len()
                    &&& old(self)@.tables[t as int].kind != TableKind::Detached
                    &&& old(self)@.tables[t as int].find(name@).is_none()
                    &&& final(self)@ == old(self)@.with_header(t as int).with_value(
                        t as int,
                        KeyView {
                            decor: line_key_decor(
                                old(self)@.with_header(t as int).tables[t as int].open_ended(),
                            ),
                            ..KeyView::of_name(name@)
                        },
                        value@.decorated(line_value_decor()),
                    )
                },
                Ok(Some(v)) => {
                    &&& t < old(self)@.tables.len()
                    &&& old(self)@.value_at(t as int, name@) == Some(v@)
                    &&& final(self)@ == old(self)@.with_replaced(
                        t as int,
                        old(self)@.tables[t as int].find(name@).unwrap(),
                        value@.decorated(v@.decor()),
                    )
                },
                Err(e) => {
                    &&& final(self)@ == old(self)@
                    &&& e@ == (CustomErrorView::DuplicateKey { key: name@ })
                    &&& t < old(self)@.tables.len() && old(self)@.tables[t as int].kind
                        != TableKind::Detached ==> old(self)@.tables[t as int].find(
                        name@,
                    ).is_some() && old(self)@.value_at(t as int, name@).is_none()
                },
            },
    {
        let ghost d = self@;
        if t >= self.tables.len() {
            return Err(CustomError::DuplicateKey { key: copy_bytes(name) });
        }
        match self.find(t, name) {
            None => {
                match self.tables[t].kind {
                    TableKind::Detached => {
                        return Err(CustomError::DuplicateKey { key: copy_bytes(name) });
                    },
                    TableKind::Implicit => {
                        let open = self.has_open_end();
                        proof {
                            lemma_made_explicit(d, t as int, header_decor(open));
                        }
                        self.make_explicit(t, make_header_decor(open));
                    },
                    _ => {},
                }
                let open = self.tables[t].is_open_ended();
                let key = Key::new(name).decorated(make_line_key_decor(open));
                let ghost given = value@;
                let value = value.decorated(make_line_value_decor());
                proof {
                    let h = d.with_header(t as int);
                    assert(h.tables[t as int].entries == d.tables[t as int].entries);
                    assert(!h.tables[t as int].has(key@.name));
                    lemma_decorated(given, line_value_decor());
                    lemma_with_value_wf(h, t as int, key@, value@);
                }
                self.push_value(t, key, value);
                Ok(None)
            },
            Some(e) => {
                proof {
                    assert(d.table_ok(t as int));
                    assert(d.item_ok(t as int, d.tables[t as int].entries[e as int].item));
                }
                let kept: Option<Decor> = match &self.tables[t].entries[e].item {
                    Item::Value(v) => Some(v.decor().duplicate()),
                    _ => None,
                };
                match kept {
                    None => Err(CustomError::DuplicateKey { key: copy_bytes(name) }),
                    Some(decor) => {
                        let mut taken = value.decorated(decor);
                        proof {
                            lemma_decorated(value@, decor@);
                            lemma_with_replaced(d, t as int, e as int, taken@);
                        }
                        let ghost new_value = taken@;
                        let table = &mut self.tables[t];
                        let entry = &mut table.entries[e];
                        match &mut entry.item {
                            Item::Value(v) => {
                                std::mem::swap(v, &mut taken);
                            },
                            _ => {},
                        }
                        proof {
                            let want = d.with_replaced(t as int, e as int, new_value);
                            assert(self@.tables[t as int].entries =~= want.tables[t as int].entries);
                            assert(self@.tables =~= want.tables);
                        }
                        Ok(Some(taken))
                    },
                }
            },
        }
    }

    /// Opens a new table `[..name]` in the table at `t`, with a line break
    /// behind its header. An implicit table of that name gets the header.
    /// Where the name is bound to anything else, or where there is no table
    /// at `t` or it was taken out of the document, nothing changes.
    pub fn insert_table(&mut self, t: usize, name: &[u8]) -> (r: Result<usize, CustomError>)
        requires
            old(self)@.wf(),
        ensures
            final(self)@.wf(),
            match r {
                Ok(u) => {
                    &&& t < old(self)@.tables.len()
                    &&& old(self)@.tables[t as int].kind != TableKind::Detached
                    &&& old(self)@.open_table(
                        t as int,
                        KeyView::of_name(name@),
                        header_decor(old(self)@.open_end()),
                    ) == Ok::<(DocumentView, int), CustomErrorView>((final(self)@, u as int))
                    &&& u < final(self)@.tables.len()
                },
                Err(e) => {
                    &&& final(self)@ == old(self)@
                    &&& e@ == (CustomErrorView::DuplicateKey { key: name@ })
                    &&& t < old(self)@.tables.len() && old(self)@.tables[t as int].kind
                        != TableKind::Detached ==> old(self)@.open_table(
                        t as int,
                        KeyView::of_name(name@),
                        header_decor(old(self)@.open_end()),
                    ) is Err
                },
            },
    {
        if t >= self.tables.len() {
            return Err(CustomError::DuplicateKey { key: copy_bytes(name) });
        }
        match self.tables[t].kind {
            TableKind::Detached => {
                return Err(CustomError::DuplicateKey { key: copy_bytes(name) });
            },
            _ => {},
        }
        let key = Key::new(name);
        let open = self.has_open_end();
        match self.open_table(t, &key, make_header_decor(open)) {
            Ok(u) => Ok(u),
            Err(_) => Err(CustomError::DuplicateKey { key: copy_bytes(name) }),
        }
    }

    /// Opens a new table `[[..name]]` in the table at `t`, with a line break
    /// behind its header: the first of a new array of tables, or one more of
    /// the array that has the name. Where the name is bound to anything else,
    /// or where there is no table at `t` or it was taken out of the document,
    /// nothing changes.
    pub fn insert_array_table(&mut self, t: usize, name: &[u8]) -> (r: Result<usize, CustomError>)
        requires
            old(self)@.wf(),
        ensures
            final(self)@.wf(),
            match r {
                Ok(u) => {
                    &&& t < old(self)@.tables.len()
                    &&& old(self)@.tables[t as int].kind != TableKind::Detached
                    &&& old(self)@.open_array(
                        t as int,
                        KeyView::of_name(name@),
                        header_decor(old(self)@.open_end()),
                    ) == Ok::<(DocumentView, int), CustomErrorView>((final(self)@, u as int))
                    &&& u < final(self)@.tables.len()
                },
                Err(e) => {
                    &&& final(self)@ == old(self)@
                    &&& e@ == (CustomErrorView::DuplicateKey { key: name@ })
                    &&& t < old(self)@.tables.len() && old(self)@.tables[t as int].kind
                        != TableKind::Detached ==> old(self)@.open_array(
                        t as int,
                        KeyView::of_name(name@),
                        header_decor(old(self)@.open_end()),
                    ) is Err
                },
            },
    {
        if t >= self.tables.len() {
            return Err(CustomError::DuplicateKey { key: copy_bytes(name) });
        }
        match self.tables[t].kind {
            TableKind::Detached => {
                return Err(CustomError::DuplicateKey { key: copy_bytes(name) });
            },
            _ => {},
        }
        let key = Key::new(name);
        let open = self.has_open_end();
        match self.open_array(t, &key, make_header_decor(open)) {
            Ok(u) => Ok(u),
            Err(_) => Err(CustomError::DuplicateKey { key: copy_bytes(name) }),
        }
    }

    /// Takes the value bound to `name` out of the table at `t`; the other
    /// entries keep their order. Where the name is free or bound to a table,
    /// nothing changes.
    pub fn remove_value(&mut self, t: usize, name: &[u8]) -> (r: Option<Value>)
        requires
            old(self)@.wf(),
        ensures
            final(self)@.wf(),
            match r {
                Some(v) => {
                    &&& t < old(self)@.tables.len()
                    &&& old(self)@.value_at(t as int, name@) == Some(v@)
                    &&& final(self)@ == old(self)@.without_entry(
                        t as int,
                        old(self)@.tables[t as int].find(name@).unwrap(),
                    )
                },
                None => {
                    &&& final(self)@ == old(self)@
                    &&& t < old(self)@.tables.len() ==> old(self)@.value_at(t as int, name@).is_none()
                },
            },
    {
        let ghost d = self@;
        match self.find(t, name) {
            None => None,
            Some(e) => {
                let holds_value = match &self.tables[t].entries[e].item {
                    Item::Value(_) => true,
                    _ => false,
                };
                if !holds_value {
                    return None;
                }
                proof {
                    lemma_without_entry(d, t as int, e as int);
                }
                let table = &mut self.tables[t];
                let entry = table.entries.remove(e);
                proof {
                    let want = d.without_entry(t as int, e as int);
                    assert(self@.tables[t as int].entries =~= want.tables[t as int].entries);
                    assert(self@.tables =~= want.tables);
                }
                match entry.item {
                    Item::Value(v) => Some(v),
                    _ => None,
                }
            },
        }
    }
}

impl ValueView {
    /// The value laid out anew where it is an array or an inline table; any
    /// other value as it is.
    pub open spec fn laid_out(self, multiline: bool) -> ValueView {
        match self {
            ValueView::Array(a) => ValueView::Array(a.formatted(multiline)),
            ValueView::InlineTable(t) => ValueView::InlineTable(t.formatted()),
            _ => self,
        }
    }

    /// The inline table `{name = value}`.
    pub open spec fn wrapped(self, name: Seq<u8>) -> ValueView {
        ValueView::InlineTable(
            InlineTableView {
                entries: seq![
                    InlineEntryView {
                        key: KeyView { decor: inline_key_decor(), ..KeyView::of_name(name) },
                        value: self.decorated(
                            DecorView { prefix: seq![SPACE], suffix: Seq::empty() },
                        ),
                    },
                ],
                preamble: Seq::empty(),
                decor: DecorView::empty(),
            },
        )
    }

    /// The value inside inline tables, one for each of `names`:
    /// `{a = {b = value}}` for the names `a` and `b`.
    pub open spec fn nested(self, names: Seq<Seq<u8>>) -> ValueView
        decreases names.len(),
    {
        if names.len() == 0 {
            self
        } else {
            self.nested(names.skip(1)).wrapped(names[0])
        }
    }
}

/// Wrapping a well-formed value in inline tables gives a well-formed value.
pub proof fn lemma_nested_wf(v: ValueView, names: Seq<Seq<u8>>)
    requires
        v.wf(),
    ensures
        v.nested(names).wf(),
    decreases names.len(),
{
    if names.len() > 0 {
        let inner = v.nested(names.skip(1));
        lemma_nested_wf(v, names.skip(1));
        lemma_decorated(inner, DecorView { prefix: seq![SPACE], suffix: Seq::empty() });
        let w = inner.wrapped(names[0]);
        assert(w->InlineTable_0.entries[0].value.wf());
    }
}

impl Value {
    /// Lays the value out anew where it is an array or an inline table.
    pub fn fmt(&mut self, multiline: bool)
        ensures
            final(self)@ == old(self)@.laid_out(multiline),
            old(self)@.wf() ==> final(self)@.wf(),
    {
        match self {
            Value::Array(a) => {
                a.fmt(multiline);
            },
            Value::InlineTable(t) => {
                t.fmt();
            },
            _ => {},
        }
    }

    /// Puts the value into the inline table `{name = value}`.
    pub fn wrapped(self, name: &[u8]) -> (w: Value)
        ensures
            w@ == self@.wrapped(name@),
    {
        let mut prefix: Vec<u8> = Vec::new();
        prefix.push(SPACE);
        let decor = Decor { prefix, suffix: Vec::new() };
        assert(decor@.prefix =~= seq![SPACE]);
        assert(decor@ == (DecorView { prefix: seq![SPACE], suffix: Seq::empty() }));
        let inner = self.decorated(decor);
        let key = Key::new(name).decorated(make_inline_key_decor());
        let entry = InlineEntry { key, value: inner };
        let ghost added = entry@;
        let mut entries: Vec<InlineEntry> = Vec::new();
        entries.push(entry);
        let w = Value::InlineTable(
            InlineTable { entries, preamble: Vec::new(), decor: Decor::empty() },
        );
        proof {
            assert(w@->InlineTable_0.entries =~= seq![added]);
        }
        w
    }

    /// Puts the value into inline tables, one for each of the names
    /// `names[from..]`.
    pub fn nested(self, names: &Vec<Vec<u8>>, from: usize) -> (w: Value)
        requires
            from <= names@.len(),
        ensures
            w@ == self@.nested(names_view(names@).subrange(from as int, names@.len() as int)),
    {
        let ghost all = names_view(names@);
        let ghost given = self@;
        let mut current = self;
        let mut i: usize = names.len();
        proof {
            assert(all.subrange(i as int, all.len() as int) =~= Seq::empty());
        }
        while i > from
            invariant
                from <= i <= names@.len(),
                all == names_view(names@),
                current@ == given.nested(all.subrange(i as int, all.len() as int)),
            decreases i,
        {
            i -= 1;
            proof {
                let rest = all.subrange(i as int, all.len() as int);
                assert(rest.skip(1) =~= all.subrange(i as int + 1, all.len() as int));
                assert(rest[0] == names@[i as int]@);
            }
            current = current.wrapped(names[i].as_slice());
        }
        current
    }
}

/// The names as byte strings.
pub open spec fn names_view(names: Seq<Vec<u8>>) -> Seq<Seq<u8>> {
    Seq::new(names.len(), |i: int| names[i]@)
}

impl DocumentView {
    /// The document in which `name` is bound to `value` in the table at `t`:
    /// a value that was bound to the name gives way and leaves its
    /// decoration to the new one; a free name gets a new line, behind a new
    /// header where the table had none. A name bound to a table stays so,
    /// and a table that was taken out takes nothing.
    pub open spec fn bound(self, t: int, name: Seq<u8>, value: ValueView) -> Result<
        DocumentView,
        CustomErrorView,
    > {
        match self.tables[t].find(name) {
            None => if self.tables[t].kind == TableKind::Detached {
                Err(CustomErrorView::DuplicateKey { key: name })
            } else {
                Ok(
                    self.with_header(t).with_value(
                        t,
                        KeyView {
                            decor: line_key_decor(self.with_header(t).tables[t].open_ended()),
                            ..KeyView::of_name(name)
                        },
                        value.decorated(line_value_decor()),
                    ),
                )
            },
            Some(e) => match self.tables[t].entries[e].item {
                ItemView::Value(v) => Ok(self.with_replaced(t, e, value.decorated(v.decor()))),
                _ => Err(CustomErrorView::DuplicateKey { key: name }),
            },
        }
    }

    /// The document in which `value` stands at the end of the path `names`
    /// that starts in the table at `t`. The path goes through tables as far
    /// as the names are bound to tables, through the last table of an array
    /// of tables; behind the first free name the value is wrapped in inline
    /// tables. A value in the way, and a path without names, give an error.
    pub open spec fn assigned(self, t: int, names: Seq<Seq<u8>>, value: ValueView) -> Result<
        DocumentView,
        CustomErrorView,
    >
        decreases names.len(),
    {
        if names.len() == 0 {
            Err(CustomErrorView::DuplicateKey { key: Seq::empty() })
        } else if names.len() == 1 {
            self.bound(t, names[0], value)
        } else {
            match self.tables[t].find(names[0]) {
                None => self.bound(t, names[0], value.nested(names.skip(1))),
                Some(e) => match self.tables[t].entries[e].item {
                    ItemView::Value(_) => Err(CustomErrorView::DuplicateKey { key: names[0] }),
                    ItemView::Table(c) => self.assigned(c as int, names.skip(1), value),
                    ItemView::ArrayOfTables(v) => self.assigned(
                        v.last() as int,
                        names.skip(1),
                        value,
                    ),
                },
            }
        }
    }
}

impl Document {
    /// Lays out anew the array or the inline table bound to `name` in the
    /// table at `t`: on one line, or, an array, on several. Returns whether
    /// the name is bound to a value; a value that is neither an array nor an
    /// inline table stays as it is.
    pub fn format_value(&mut self, t: usize, name: &[u8], multiline: bool) -> (done: bool)
        requires
            old(self)@.wf(),
        ensures
            final(self)@.wf(),
            done ==> t < old(self)@.tables.len() && old(self)@.value_at(t as int, name@) is Some
                && final(self)@ == old(self)@.with_replaced(
                t as int,
                old(self)@.tables[t as int].find(name@).unwrap(),
                old(self)@.value_at(t as int, name@).unwrap().laid_out(multiline),
            ),
            !done ==> final(self)@ == old(self)@ && (t < old(self)@.tables.len() ==> old(
                self,
            )@.value_at(t as int, name@).is_none()),
    {
        let ghost d = self@;
        match self.find(t, name) {
            None => false,
            Some(e) => {
                let holds_value = match &self.tables[t].entries[e].item {
                    Item::Value(_) => true,
                    _ => false,
                };
                if !holds_value {
                    return false;
                }
                proof {
                    assert(d.table_ok(t as int));
                    assert(d.item_ok(t as int, d.tables[t as int].entries[e as int].item));
                }
                let table = &mut self.tables[t];
                let entry = &mut table.entries[e];
                match &mut entry.item {
                    Item::Value(v) => {
                        v.fmt(multiline);
                    },
                    _ => {},
                }
                proof {
                    let given = d.tables[t as int].entries[e as int].item->Value_0;
                    let want = d.with_replaced(t as int, e as int, given.laid_out(multiline));
                    assert(self@.tables[t as int].entries =~= want.tables[t as int].entries);
                    assert(self@.tables =~= want.tables);
                    lemma_with_replaced(d, t as int, e as int, given.laid_out(multiline));
                }
                true
            },
        }
    }

    /// Puts `value` at the end of the path `names`, which starts at the
    /// root. Tables on the path are walked through; behind the first free
    /// name the value is wrapped in inline tables, one for each name that is
    /// left. Where a value stands in the way, or the path is empty, nothing
    /// changes.
    pub fn assign(&mut self, names: &Vec<Vec<u8>>, value: Value) -> (r: Result<(), CustomError>)
        requires
            old(self)@.wf(),
            value@.wf(),
        ensures
            final(self)@.wf(),
            match r {
                Ok(()) => old(self)@.assigned(0, names_view(names@), value@) == Ok::<
                    DocumentView,
                    CustomErrorView,
                >(final(self)@),
                Err(e) => old(self)@.assigned(0, names_view(names@), value@) == Err::<
                    DocumentView,
                    CustomErrorView,
                >(e@) && final(self)@ == old(self)@,
            },
    {
        let ghost d = self@;
        let ghost all = names_view(names@);
        let n = names.len();
        if n == 0 {
            return Err(CustomError::DuplicateKey { key: Vec::new() });
        }
        let mut t: usize = 0;
        let mut i: usize = 0;
        proof {
            assert(all.subrange(0, all.len() as int) =~= all);
        }
        while i < n - 1
            invariant
                self@ == d,
                d == old(self)@,
                d.wf(),
                value@.wf(),
                n == names@.len(),
                all == names_view(names@),
                0 <= i <= n - 1,
                t < d.tables.len(),
                d.tables[t as int].kind != TableKind::Detached,
                d.assigned(0, all, value@) == d.assigned(
                    t as int,
                    all.subrange(i as int, n as int),
                    value@,
                ),
            decreases n - i,
        {
            let ghost rest = all.subrange(i as int, n as int);
            proof {
                assert(rest.skip(1) =~= all.subrange(i as int + 1, n as int));
                assert(rest[0] == names@[i as int]@);
                assert(d.table_ok(t as int));
            }
            match self.find(t, names[i].as_slice()) {
                None => {
                    proof {
                        lemma_nested_wf(value@, rest.skip(1));
                    }
                    let inner = value.nested(names, i + 1);
                    match self.insert_value(t, names[i].as_slice(), inner) {
                        Ok(_) => {
                            return Ok(());
                        },
                        Err(e) => {
                            return Err(e);
                        },
                    }
                },
                Some(e) => {
                    proof {
                        assert(d.item_ok(t as int, d.tables[t as int].entries[e as int].item));
                    }
                    match &self.tables[t].entries[e].item {
                        Item::Value(_) => {
                            return Err(
                                CustomError::DuplicateKey { key: copy_bytes(names[i].as_slice()) },
                            );
                        },
                        Item::Table(c) => {
                            t = *c;
                        },
                        Item::ArrayOfTables(v) => {
                            proof {
                                assert(d.element_ok(t as int, v@[v@.len() - 1]));
                            }
                            t = v[v.len() - 1];
                        },
                    }
                },
            }
            i += 1;
        }
        proof {
            let rest = all.subrange(i as int, n as int);
            assert(rest.len() == 1);
            assert(rest[0] == names@[i as int]@);
        }
        match self.insert_value(t, names[i].as_slice(), value) {
            Ok(_) => Ok(()),
            Err(e) => Err(e),
        }
    }
}

} // verus!

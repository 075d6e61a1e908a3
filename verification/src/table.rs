//! Tables: ordered mappings from keys to values, tables and arrays of tables.
//!
//! A table does not hold its own header. The tables of a document stand in
//! one list, and a table refers to its child tables by their places in that
//! list; the path of a table is read off the entries that lead to it.

use crate::decor::{Decor, DecorView};
use crate::key::{Key, KeyView};
use crate::text::EQUALS;
use crate::value::{Value, ValueView};
use vstd::prelude::*;

verus! {

/// How a table came to be.
#[derive(Debug, Clone, Copy, PartialEq, Eq, Structural)]
pub enum TableKind {
    /// The table of the document itself, which has no header.
    Root,
    /// A table that exists only because a header names it on the way to
    /// another table; it has no header of its own and holds no values.
    Implicit,
    /// A table with a header `[a.b]`.
    Header,
    /// One table of an array of tables, with a header `[[a.b]]`.
    ArrayElement,
    /// A table that was taken out of the document: it holds nothing, nothing
    /// holds it, and it is written nowhere. Its place in the list stays
    /// taken, so that the places of the other tables stay what they are.
    Detached,
}

/// Whether a table of this kind is written with a header.
pub open spec fn headed(kind: TableKind) -> bool {
    kind == TableKind::Header || kind == TableKind::ArrayElement
}

/// Whether a table of this kind can hold values: the root can, and so can a
/// table with a header.
pub open spec fn holds_values(kind: TableKind) -> bool {
    kind == TableKind::Root || headed(kind)
}

/// What a key of a table is bound to.
#[derive(Debug, PartialEq, Eq)]
pub enum Item {
    Value(Value),
    /// A table, by its place in the document's list of tables.
    Table(usize),
    /// The tables of an array of tables, by their places, in the order in
    /// which they were added.
    ArrayOfTables(Vec<usize>),
}

/// An item as plain data.
pub enum ItemView {
    Value(ValueView),
    Table(usize),
    ArrayOfTables(Seq<usize>),
}

impl View for Item {
    type V = ItemView;

    open spec fn view(&self) -> ItemView {
        match self {
            Item::Value(v) => ItemView::Value(v@),
            Item::Table(c) => ItemView::Table(*c),
            Item::ArrayOfTables(v) => ItemView::ArrayOfTables(v@),
        }
    }
}

impl ItemView {
    /// Whether the item is, or holds, the table at place `child`.
    pub open spec fn refers(self, child: usize) -> bool {
        match self {
            ItemView::Value(_) => false,
            ItemView::Table(c) => c == child,
            ItemView::ArrayOfTables(v) => v.contains(child),
        }
    }
}

/// One binding of a table.
#[derive(Debug, PartialEq, Eq)]
pub struct Entry {
    pub key: Key,
    pub item: Item,
}

/// A binding as plain data.
pub struct EntryView {
    pub key: KeyView,
    pub item: ItemView,
}

impl View for Entry {
    type V = EntryView;

    open spec fn view(&self) -> EntryView {
        EntryView { key: self.key@, item: self.item@ }
    }
}

impl EntryView {
    /// The line of the entry where it binds a value; nothing else.
    pub open spec fn text(self) -> Seq<u8> {
        match self.item {
            ItemView::Value(v) => self.key.render() + seq![EQUALS] + v.render(),
            _ => Seq::empty(),
        }
    }
}

/// The views of a sequence of entries, element by element.
pub open spec fn table_entries_view(es: Seq<Entry>) -> Seq<EntryView> {
    Seq::new(es.len(), |i: int| es[i]@)
}

/// The lines of the entries that bind values, in order.
pub open spec fn entries_text(es: Seq<EntryView>) -> Seq<u8>
    decreases es.len(),
{
    if es.len() == 0 {
        Seq::empty()
    } else {
        entries_text(es.drop_last()) + es.last().text()
    }
}

/// A table of a document.
#[derive(Debug, PartialEq, Eq)]
pub struct Table {
    pub entries: Vec<Entry>,
    /// What stands before the header and behind it.
    pub decor: Decor,
    pub kind: TableKind,
    /// The place of the table that holds this one; 0 for the root itself.
    pub parent: usize,
}

/// A table as plain data.
pub struct TableView {
    pub entries: Seq<EntryView>,
    pub decor: DecorView,
    pub kind: TableKind,
    pub parent: usize,
}

impl View for Table {
    type V = TableView;

    open spec fn view(&self) -> TableView {
        TableView {
            entries: table_entries_view(self.entries@),
            decor: self.decor@,
            kind: self.kind,
            parent: self.parent,
        }
    }
}

impl TableView {
    /// Whether an entry has the name `name`.
    pub open spec fn has(self, name: Seq<u8>) -> bool {
        exists|e: int| 0 <= e < self.entries.len() && (#[trigger] self.entries[e]).key.name == name
    }

    /// The place of the entry with the name `name`.
    pub open spec fn find(self, name: Seq<u8>) -> Option<int> {
        if self.has(name) {
            Some(
                choose|e: int|
                    0 <= e < self.entries.len() && (#[trigger] self.entries[e]).key.name == name,
            )
        } else {
            None
        }
    }

    /// No two entries have the same name.
    pub open spec fn distinct_names(self) -> bool {
        forall|i: int, j: int|
            0 <= i < j < self.entries.len() ==> (#[trigger] self.entries[i]).key.name != (
            #[trigger] self.entries[j]).key.name
    }

    /// No table is held by two entries.
    pub open spec fn distinct_children(self) -> bool {
        forall|i: int, j: int, c: usize|
            0 <= i < self.entries.len() && 0 <= j < self.entries.len() && (
            #[trigger] self.entries[i].item.refers(c)) && (#[trigger] self.entries[j].item.refers(
                c,
            )) ==> i == j
    }

    /// The lines of the values of the table, in order.
    pub open spec fn body_text(self) -> Seq<u8> {
        entries_text(self.entries)
    }

    /// The table with one more entry at its end.
    pub open spec fn with_entry(self, entry: EntryView) -> TableView {
        TableView { entries: self.entries.push(entry), ..self }
    }
}

impl Table {
    /// Finds the entry with the name `name`.
    pub fn find(&self, name: &[u8]) -> (r: Option<usize>)
        ensures
            match r {
                Some(e) => e < self@.entries.len() && self@.entries[e as int].key.name == name@,
                None => !self@.has(name@),
            },
            self@.distinct_names() ==> (r matches Some(e) ==> self@.find(name@) == Some(e as int)),
            r.is_none() ==> self@.find(name@).is_none(),
    {
        let mut i: usize = 0;
        while i < self.entries.len()
            invariant
                0 <= i <= self.entries.len(),
                forall|k: int| 0 <= k < i ==> (#[trigger] self@.entries[k]).key.name != name@,
            decreases self.entries.len() - i,
        {
            if crate::text::bytes_eq(self.entries[i].key.name.as_slice(), name) {
                proof {
                    let found = self@.entries[i as int];
                    assert(found.key.name == name@);
                    if self@.distinct_names() {
                        let e = self@.find(name@).unwrap();
                        assert(self@.entries[e].key.name == name@);
                        if e < i {
                            assert(self@.entries[e].key.name != self@.entries[i as int].key.name);
                        }
                        if i < e {
                            assert(self@.entries[i as int].key.name != self@.entries[e].key.name);
                        }
                    }
                }
                return Some(i);
            }
            i += 1;
        }
        None
    }
}

} // verus!

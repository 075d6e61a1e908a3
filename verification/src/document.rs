//! The document: the tables of a text in one list, the order in which their
//! headers were written, and the two ways of writing them back.

use crate::decor::{Decor, DecorView};
use crate::key::{Key, KeyView};
use crate::table::{
    headed, holds_values, table_entries_view, Entry, EntryView, Item, ItemView, Table, TableKind, TableView,
};
use crate::text::{brackets, DOT};
use crate::value::{Value, ValueView};
use vstd::prelude::*;

verus! {

/// A document.
///
/// `tables[0]` is the root. Every other table is held by an entry of its
/// parent, which stands before it in the list, unless it was taken out of the
/// document. `order` lists the root and the
/// tables with a header in the order in which the headers stand in the text;
/// only the writer that keeps that order reads it.
#[derive(Debug, PartialEq, Eq)]
pub struct Document {
    pub tables: Vec<Table>,
    pub order: Vec<usize>,
    /// What stands behind the last line.
    pub trailing: Vec<u8>,
}

/// A document as plain data.
pub struct DocumentView {
    pub tables: Seq<TableView>,
    pub order: Seq<usize>,
    pub trailing: Seq<u8>,
}

/// The views of a sequence of tables, element by element.
pub open spec fn tables_view(ts: Seq<Table>) -> Seq<TableView> {
    Seq::new(ts.len(), |i: int| ts[i]@)
}

impl View for Document {
    type V = DocumentView;

    open spec fn view(&self) -> DocumentView {
        DocumentView {
            tables: tables_view(self.tables@),
            order: self.order@,
            trailing: self.trailing@,
        }
    }
}

impl DocumentView {
    /// A document that holds nothing but its root and the text `trailing`.
    pub open spec fn start(trailing: Seq<u8>) -> DocumentView {
        DocumentView { trailing, ..DocumentView::fresh() }
    }

    /// A document that holds nothing but its root.
    pub open spec fn fresh() -> DocumentView {
        DocumentView {
            tables: seq![
                TableView {
                    entries: Seq::empty(),
                    decor: DecorView::empty(),
                    kind: TableKind::Root,
                    parent: 0,
                },
            ],
            order: seq![0usize],
            trailing: Seq::empty(),
        }
    }

    /// The table at `c` can be one of an array of tables that the table at
    /// `t` holds.
    pub open spec fn element_ok(self, t: int, c: usize) -> bool {
        &&& t < c < self.tables.len()
        &&& self.tables[c as int].parent == t
        &&& self.tables[c as int].kind == TableKind::ArrayElement
    }

    /// The item can stand in the table at `t`: a value is well formed and is
    /// not in an implicit table; a table or the tables of an array come
    /// behind `t` in the list and name `t` as their parent.
    pub open spec fn item_ok(self, t: int, item: ItemView) -> bool {
        match item {
            ItemView::Value(v) => v.wf() && holds_values(self.tables[t].kind),
            ItemView::Table(c) => {
                &&& t < c < self.tables.len()
                &&& self.tables[c as int].parent == t
                &&& (self.tables[c as int].kind == TableKind::Implicit || self.tables[c as int].kind
                    == TableKind::Header)
            },
            ItemView::ArrayOfTables(v) => {
                &&& v.len() > 0
                &&& forall|k: int| 0 <= k < v.len() ==> self.element_ok(t, #[trigger] v[k])
                &&& forall|i: int, j: int| 0 <= i < j < v.len() ==> v[i] < v[j]
            },
        }
    }

    /// The entries of the table at `t` have distinct names, hold distinct
    /// tables, and each item can stand there.
    pub open spec fn table_ok(self, t: int) -> bool {
        &&& self.tables[t].distinct_names()
        &&& self.tables[t].distinct_children()
        &&& forall|e: int|
            0 <= e < self.tables[t].entries.len() ==> self.item_ok(
                t,
                #[trigger] self.tables[t].entries[e].item,
            )
    }

    /// The table at `c` is held by an entry of its parent, which stands
    /// before it.
    pub open spec fn held(self, c: int) -> bool {
        let p = self.tables[c].parent as int;
        &&& self.tables[c].kind != TableKind::Root
        &&& 0 <= p < c
        &&& exists|e: int|
            0 <= e < self.tables[p].entries.len() && #[trigger] self.tables[p].entries[e].item.refers(
                c as usize,
            )
    }

    /// The table at `c` has its place in the tree: it is held by its parent,
    /// or it was taken out and holds nothing.
    pub open spec fn placed(self, c: int) -> bool {
        if self.tables[c].kind == TableKind::Detached {
            self.tables[c].entries.len() == 0
        } else {
            self.held(c)
        }
    }

    /// The `k`-th table in the order of the headers exists, and but for the
    /// root it has a header.
    pub open spec fn listed_ok(self, k: int) -> bool {
        &&& self.order[k] < self.tables.len()
        &&& k > 0 ==> headed(self.tables[self.order[k] as int].kind)
    }

    /// The order of the headers starts with the root and lists each table
    /// with a header once.
    pub open spec fn order_ok(self) -> bool {
        &&& self.order.len() >= 1
        &&& self.order[0] == 0
        &&& forall|k: int| 0 <= k < self.order.len() ==> #[trigger] self.listed_ok(k)
        &&& forall|i: int, j: int| 0 <= i < j < self.order.len() ==> self.order[i] != self.order[j]
        &&& forall|t: usize|
            t < self.tables.len() && headed(self.tables[t as int].kind)
                ==> #[trigger] self.order.contains(t)
    }

    /// The invariant of a document.
    pub open spec fn wf(self) -> bool {
        &&& 1 <= self.tables.len() <= usize::MAX
        &&& self.tables[0].kind == TableKind::Root
        &&& forall|c: int| 0 < c < self.tables.len() ==> #[trigger] self.placed(c)
        &&& forall|t: int| 0 <= t < self.tables.len() ==> #[trigger] self.table_ok(t)
        &&& self.order_ok()
    }

    /// The place, among the entries of its parent, of the entry that holds
    /// the table at `c`.
    pub open spec fn slot_of(self, c: int) -> int {
        let p = self.tables[c].parent as int;
        choose|e: int|
            0 <= e < self.tables[p].entries.len() && #[trigger] self.tables[p].entries[e].item.refers(
                c as usize,
            )
    }

    /// The key under which the table at `c` stands in its parent, as it is
    /// written there.
    pub open spec fn key_of(self, c: int) -> Seq<u8> {
        self.tables[self.tables[c].parent as int].entries[self.slot_of(c)].key.raw
    }

    /// The keys that lead from the root to the table at `t`, with dots
    /// between them; nothing for a table that was taken out.
    pub open spec fn path_text(self, t: int) -> Seq<u8>
        decreases t,
    {
        if t <= 0 || t >= self.tables.len() || self.tables[t].parent >= t || self.tables[t].kind
            == TableKind::Detached {
            Seq::empty()
        } else if self.tables[t].parent == 0 {
            self.key_of(t)
        } else {
            self.path_text(self.tables[t].parent as int) + seq![DOT] + self.key_of(t)
        }
    }

    /// The header of the table at `t` as it is written, from the first
    /// bracket to the last: the brackets are doubled for a table of an array.
    pub open spec fn header_text(self, t: int) -> Seq<u8> {
        let array = self.tables[t].kind == TableKind::ArrayElement;
        brackets(array, true) + self.path_text(t) + brackets(array, false)
    }

    /// The header line of the table at `t` with what stands around it;
    /// nothing for a table without header.
    pub open spec fn heading(self, t: int) -> Seq<u8> {
        let table = self.tables[t];
        if headed(table.kind) {
            table.decor.prefix + self.header_text(t) + table.decor.suffix
        } else {
            Seq::empty()
        }
    }

    /// The headers of the document as they are written, in the order in
    /// which they were written.
    pub open spec fn headers(self) -> Seq<Seq<u8>> {
        Seq::new((self.order.len() - 1) as nat, |h: int| self.header_text(self.order[h + 1] as int))
    }

    /// The text of the table at `t`: its header and the lines of its values.
    /// An implicit table has no text.
    pub open spec fn table_text(self, t: int) -> Seq<u8> {
        if self.tables[t].kind == TableKind::Implicit {
            Seq::empty()
        } else {
            self.heading(t) + self.tables[t].body_text()
        }
    }

    /// The texts of the tables at the places `order`, one after the other.
    pub open spec fn text_in_order(self, order: Seq<usize>) -> Seq<u8>
        decreases order.len(),
    {
        if order.len() == 0 {
            Seq::empty()
        } else {
            self.text_in_order(order.drop_last()) + self.table_text(order.last() as int)
        }
    }

    /// The text of the document with the tables in the order in which their
    /// headers were written.
    pub open spec fn original_text(self) -> Seq<u8> {
        self.text_in_order(self.order) + self.trailing
    }

    /// The table at `t` and the tables below it: each table comes before the
    /// tables that its entries hold, and these in the order of the entries.
    pub open spec fn subtree(self, t: int) -> Seq<usize>
        decreases self.tables.len() - t, 2 * self.tables[t].entries.len() + 2, 0int,
    {
        if 0 <= t < self.tables.len() {
            seq![t as usize] + self.children_from(t, 0)
        } else {
            Seq::empty()
        }
    }

    /// The tables below the entries of the table at `t`, from the entry `e`
    /// on.
    pub open spec fn children_from(self, t: int, e: int) -> Seq<usize>
        decreases self.tables.len() - t, 2 * (self.tables[t].entries.len() - e) + 1, 0int,
    {
        if 0 <= t < self.tables.len() && 0 <= e < self.tables[t].entries.len() {
            (match self.tables[t].entries[e].item {
                ItemView::Value(_) => Seq::empty(),
                ItemView::Table(c) => if t < c < self.tables.len() {
                    self.subtree(c as int)
                } else {
                    Seq::empty()
                },
                ItemView::ArrayOfTables(_) => self.elements_from(t, e, 0),
            }) + self.children_from(t, e + 1)
        } else {
            Seq::empty()
        }
    }

    /// The tables of, and below, the array of tables that the entry `e` of
    /// the table at `t` holds, from its table `k` on.
    pub open spec fn elements_from(self, t: int, e: int, k: int) -> Seq<usize>
        decreases self.tables.len() - t, 2 * (self.tables[t].entries.len() - e),
            self.tables[t].entries[e].item->ArrayOfTables_0.len() - k,
    {
        if 0 <= t < self.tables.len() && 0 <= e < self.tables[t].entries.len()
            && self.tables[t].entries[e].item is ArrayOfTables && 0 <= k
            < self.tables[t].entries[e].item->ArrayOfTables_0.len() {
            let c = self.tables[t].entries[e].item->ArrayOfTables_0[k];
            (if t < c < self.tables.len() {
                self.subtree(c as int)
            } else {
                Seq::empty()
            }) + self.elements_from(t, e, k + 1)
        } else {
            Seq::empty()
        }
    }

    /// The tables of the document in canonical order: every table before the
    /// tables below it.
    pub open spec fn canonical_order(self) -> Seq<usize> {
        self.subtree(0)
    }

    /// The text of the document with the tables in canonical order.
    pub open spec fn canonical_text(self) -> Seq<u8> {
        self.text_in_order(self.canonical_order()) + self.trailing
    }

    /// The places among `order` of the tables that are not implicit.
    pub open spec fn written(self, order: Seq<usize>) -> Seq<usize>
        decreases order.len(),
    {
        if order.len() == 0 {
            Seq::empty()
        } else if self.tables[order.last() as int].kind == TableKind::Implicit {
            self.written(order.drop_last())
        } else {
            self.written(order.drop_last()).push(order.last())
        }
    }

    /// Whether the headers were written in canonical order: no table before
    /// its parent, no table of an array apart from the others.
    pub open spec fn in_canonical_order(self) -> bool {
        self.written(self.canonical_order()) == self.order
    }

    /// The document with the entry `key = value` at the end of the table at
    /// `t`.
    pub open spec fn with_value(self, t: int, key: KeyView, value: ValueView) -> DocumentView {
        DocumentView {
            tables: self.tables.update(
                t,
                self.tables[t].with_entry(EntryView { key, item: ItemView::Value(value) }),
            ),
            ..self
        }
    }

    /// The document with a new table at the end of the list, whose parent is
    /// the table at `parent`; the entries of the parent become `entries`. A
    /// table with a header also comes last in the order of the headers.
    pub open spec fn with_new_table(
        self,
        parent: int,
        entries: Seq<EntryView>,
        kind: TableKind,
        decor: DecorView,
    ) -> DocumentView {
        let place = self.tables.len() as usize;
        DocumentView {
            tables: self.tables.update(parent, TableView { entries, ..self.tables[parent] }).push(
                TableView { entries: Seq::empty(), decor, kind, parent: parent as usize },
            ),
            order: if headed(kind) {
                self.order.push(place)
            } else {
                self.order
            },
            ..self
        }
    }

    /// The document with a new table under the name of `key` in the table at
    /// `parent`.
    pub open spec fn with_table(
        self,
        parent: int,
        key: KeyView,
        kind: TableKind,
        decor: DecorView,
    ) -> DocumentView {
        self.with_new_table(
            parent,
            self.tables[parent].entries.push(
                EntryView { key, item: ItemView::Table(self.tables.len() as usize) },
            ),
            kind,
            decor,
        )
    }

    /// The document with a new array of tables under the name of `key` in the
    /// table at `parent`; the array has one table.
    pub open spec fn with_array(self, parent: int, key: KeyView, decor: DecorView) -> DocumentView {
        self.with_new_table(
            parent,
            self.tables[parent].entries.push(
                EntryView { key, item: ItemView::ArrayOfTables(seq![self.tables.len() as usize]) },
            ),
            TableKind::ArrayElement,
            decor,
        )
    }

    /// The document with one more table in the array of tables that the entry
    /// `e` of the table at `parent` holds.
    pub open spec fn with_element(self, parent: int, e: int, decor: DecorView) -> DocumentView {
        let entry = self.tables[parent].entries[e];
        self.with_new_table(
            parent,
            self.tables[parent].entries.update(
                e,
                EntryView {
                    key: entry.key,
                    item: ItemView::ArrayOfTables(
                        entry.item->ArrayOfTables_0.push(self.tables.len() as usize),
                    ),
                },
            ),
            TableKind::ArrayElement,
            decor,
        )
    }

    /// The document in which the entry `e` of the table at `t` is bound to
    /// `value`, under the key that was there.
    pub open spec fn with_replaced(self, t: int, e: int, value: ValueView) -> DocumentView {
        let entries = self.tables[t].entries;
        DocumentView {
            tables: self.tables.update(
                t,
                TableView {
                    entries: entries.update(
                        e,
                        EntryView { key: entries[e].key, item: ItemView::Value(value) },
                    ),
                    ..self.tables[t]
                },
            ),
            ..self
        }
    }

    /// The document without the entry `e` of the table at `t`.
    pub open spec fn without_entry(self, t: int, e: int) -> DocumentView {
        DocumentView {
            tables: self.tables.update(
                t,
                TableView { entries: self.tables[t].entries.remove(e), ..self.tables[t] },
            ),
            ..self
        }
    }

    /// The document in which the entries `i` and `j` of the table at `t` have
    /// changed places.
    pub open spec fn swapped(self, t: int, i: int, j: int) -> DocumentView {
        let entries = self.tables[t].entries;
        DocumentView {
            tables: self.tables.update(
                t,
                TableView { entries: entries.update(i, entries[j]).update(j, entries[i]), ..self.tables[t] },
            ),
            ..self
        }
    }

    /// Whether the entries `i` and `j` of the table at `t` exist and both
    /// hold tables.
    pub open spec fn can_swap(self, t: int, i: int, j: int) -> bool {
        &&& 0 <= t < self.tables.len()
        &&& 0 <= i < self.tables[t].entries.len()
        &&& 0 <= j < self.tables[t].entries.len()
        &&& !(self.tables[t].entries[i].item is Value)
        &&& !(self.tables[t].entries[j].item is Value)
    }

    /// The document in which the entry `from` of the table at `t` stands at
    /// the place `to` among the entries; the others keep their order.
    pub open spec fn moved(self, t: int, from: int, to: int) -> DocumentView {
        let entries = self.tables[t].entries;
        DocumentView {
            tables: self.tables.update(
                t,
                TableView { entries: entries.remove(from).insert(to, entries[from]), ..self.tables[t] },
            ),
            ..self
        }
    }

    /// Whether the entries `from` and `to` of the table at `t` exist and the
    /// first holds a table or an array of tables.
    pub open spec fn can_move(self, t: int, from: int, to: int) -> bool {
        &&& 0 <= t < self.tables.len()
        &&& 0 <= from < self.tables[t].entries.len()
        &&& 0 <= to < self.tables[t].entries.len()
        &&& !(self.tables[t].entries[from].item is Value)
    }

    /// The document in which the implicit table at `t` has a header of its
    /// own, written last.
    pub open spec fn made_explicit(self, t: int, decor: DecorView) -> DocumentView {
        DocumentView {
            tables: self.tables.update(
                t,
                TableView { kind: TableKind::Header, decor, ..self.tables[t] },
            ),
            order: self.order.push(t as usize),
            ..self
        }
    }
}

impl Document {
    /// A document that holds nothing but its root.
    pub fn new() -> (doc: Document)
        ensures
            doc@ == DocumentView::fresh(),
    {
        let mut tables: Vec<Table> = Vec::new();
        tables.push(
            Table { entries: Vec::new(), decor: Decor::empty(), kind: TableKind::Root, parent: 0 },
        );
        let mut order: Vec<usize> = Vec::new();
        order.push(0);
        let doc = Document { tables, order, trailing: Vec::new() };
        proof {
            assert(doc@.tables[0].entries =~= Seq::empty());
            assert(doc@.tables =~= DocumentView::fresh().tables);
            assert(doc@.order =~= DocumentView::fresh().order);
        }
        doc
    }

    /// Appends the entry `key = value` to the table at `t`.
    pub(crate) fn push_value(&mut self, t: usize, key: Key, value: Value)
        requires
            t < old(self)@.tables.len(),
        ensures
            final(self)@ == old(self)@.with_value(t as int, key@, value@),
    {
        let table = &mut self.tables[t];
        table.entries.push(Entry { key, item: Item::Value(value) });
        proof {
            let before = old(self)@;
            let after = final(self)@;
            assert(after.tables[t as int].entries =~= before.tables[t as int].entries.push(
                EntryView { key: key@, item: ItemView::Value(value@) },
            ));
            assert(after.tables =~= before.with_value(t as int, key@, value@).tables);
        }
    }

    /// Appends a new table to the list and binds it to `key` in the table at
    /// `parent`.
    pub(crate) fn push_table(&mut self, parent: usize, key: Key, kind: TableKind, decor: Decor) -> (place:
        usize)
        requires
            parent < old(self)@.tables.len(),
        ensures
            place == old(self)@.tables.len(),
            final(self)@ == old(self)@.with_table(parent as int, key@, kind, decor@),
    {
        let place = self.tables.len();
        let table = &mut self.tables[parent];
        table.entries.push(Entry { key, item: Item::Table(place) });
        self.tables.push(Table { entries: Vec::new(), decor, kind, parent });
        match kind {
            TableKind::Header | TableKind::ArrayElement => {
                self.order.push(place);
            },
            _ => {},
        }
        proof {
            let before = old(self)@;
            let after = final(self)@;
            let want = before.with_table(parent as int, key@, kind, decor@);
            assert(after.tables[parent as int].entries =~= want.tables[parent as int].entries);
            assert(after.tables[place as int].entries =~= Seq::empty());
            assert(after.tables =~= want.tables);
            assert(after.order =~= want.order);
        }
        place
    }

    /// Appends a new table to the list and binds an array of tables that
    /// holds it to `key` in the table at `parent`.
    pub(crate) fn push_array(&mut self, parent: usize, key: Key, decor: Decor) -> (place: usize)
        requires
            parent < old(self)@.tables.len(),
        ensures
            place == old(self)@.tables.len(),
            final(self)@ == old(self)@.with_array(parent as int, key@, decor@),
    {
        let place = self.tables.len();
        let mut places: Vec<usize> = Vec::new();
        places.push(place);
        let table = &mut self.tables[parent];
        table.entries.push(Entry { key, item: Item::ArrayOfTables(places) });
        self.tables.push(
            Table { entries: Vec::new(), decor, kind: TableKind::ArrayElement, parent },
        );
        self.order.push(place);
        proof {
            let before = old(self)@;
            let after = final(self)@;
            let want = before.with_array(parent as int, key@, decor@);
            assert(places@ =~= seq![place]);
            assert(after.tables[parent as int].entries =~= want.tables[parent as int].entries);
            assert(after.tables[place as int].entries =~= Seq::empty());
            assert(after.tables =~= want.tables);
            assert(after.order =~= want.order);
        }
        place
    }

    /// Appends a new table to the list and to the array of tables that the
    /// entry `e` of the table at `parent` holds.
    pub(crate) fn push_element(&mut self, parent: usize, e: usize, decor: Decor) -> (place: usize)
        requires
            parent < old(self)@.tables.len(),
            e < old(self)@.tables[parent as int].entries.len(),
            old(self)@.tables[parent as int].entries[e as int].item is ArrayOfTables,
        ensures
            place == old(self)@.tables.len(),
            final(self)@ == old(self)@.with_element(parent as int, e as int, decor@),
    {
        let place = self.tables.len();
        let table = &mut self.tables[parent];
        let entry = &mut table.entries[e];
        match &mut entry.item {
            Item::ArrayOfTables(places) => {
                places.push(place);
            },
            _ => {},
        }
        self.tables.push(
            Table { entries: Vec::new(), decor, kind: TableKind::ArrayElement, parent },
        );
        self.order.push(place);
        proof {
            let before = old(self)@;
            let after = final(self)@;
            let want = before.with_element(parent as int, e as int, decor@);
            assert(after.tables[parent as int].entries =~= want.tables[parent as int].entries);
            assert(after.tables[place as int].entries =~= Seq::empty());
            assert(after.tables =~= want.tables);
            assert(after.order =~= want.order);
        }
        place
    }

    /// Gives the table at `t` a header of its own, written last.
    pub(crate) fn make_explicit(&mut self, t: usize, decor: Decor)
        requires
            t < old(self)@.tables.len(),
        ensures
            final(self)@ == old(self)@.made_explicit(t as int, decor@),
    {
        let table = &mut self.tables[t];
        table.kind = TableKind::Header;
        table.decor = decor;
        self.order.push(t);
        proof {
            let before = old(self)@;
            let after = final(self)@;
            let want = before.made_explicit(t as int, decor@);
            assert(after.tables =~= want.tables);
            assert(after.order =~= want.order);
        }
    }

    /// Lets two sibling tables change places: the entries `i` and `j` of the
    /// table at `t`, where both hold a table or an array of tables. Nothing
    /// but the order of the two entries changes; no table, key or text is
    /// touched. Returns whether the entries were swapped; where they do not
    /// exist or one of them holds a value, the document stays as it is.
    pub fn swap_entries(&mut self, t: usize, i: usize, j: usize) -> (done: bool)
        requires
            old(self)@.wf(),
        ensures
            done == old(self)@.can_swap(t as int, i as int, j as int),
            done ==> final(self)@ == old(self)@.swapped(t as int, i as int, j as int),
            !done ==> final(self)@ == old(self)@,
            final(self)@.wf(),
            final(self)@.original_text() == old(self)@.original_text(),
    {
        if t >= self.tables.len() {
            return false;
        }
        let n = self.tables[t].entries.len();
        if i >= n || j >= n {
            return false;
        }
        let first = match &self.tables[t].entries[i].item {
            Item::Value(_) => false,
            _ => true,
        };
        let second = match &self.tables[t].entries[j].item {
            Item::Value(_) => false,
            _ => true,
        };
        if !first || !second {
            return false;
        }
        let ghost before = self@;
        proof {
            crate::document_proofs::lemma_swapped(before, t as int, i as int, j as int);
        }
        if i == j {
            proof {
                let es = before.tables[t as int].entries;
                assert(es.update(i as int, es[j as int]).update(j as int, es[i as int]) =~= es);
                assert(before.swapped(t as int, i as int, j as int).tables =~= before.tables);
            }
            return true;
        }
        let (low, high) = if i < j {
            (i, j)
        } else {
            (j, i)
        };
        let table = &mut self.tables[t];
        let upper = table.entries.remove(high);
        let lower = table.entries.remove(low);
        table.entries.insert(low, upper);
        table.entries.insert(high, lower);
        proof {
            let es = before.tables[t as int].entries;
            let want = es.update(i as int, es[j as int]).update(j as int, es[i as int]);
            assert(self@.tables[t as int].entries =~= want);
            assert(self@.tables =~= before.swapped(t as int, i as int, j as int).tables);
        }
        true
    }

    /// Moves a table, or an array of tables, to another place among the
    /// entries of its parent: the entry `from` of the table at `t` comes to
    /// stand at `to`, and the other entries keep their order. No table, key
    /// or text is touched. Returns whether the entry was moved; where one of
    /// the places does not exist or the entry holds a value, the document
    /// stays as it is.
    pub fn move_entry(&mut self, t: usize, from: usize, to: usize) -> (done: bool)
        requires
            old(self)@.wf(),
        ensures
            done == old(self)@.can_move(t as int, from as int, to as int),
            done ==> final(self)@ == old(self)@.moved(t as int, from as int, to as int),
            !done ==> final(self)@ == old(self)@,
            final(self)@.wf(),
            final(self)@.original_text() == old(self)@.original_text(),
    {
        if t >= self.tables.len() {
            return false;
        }
        let n = self.tables[t].entries.len();
        if from >= n || to >= n {
            return false;
        }
        let holds_value = match &self.tables[t].entries[from].item {
            Item::Value(_) => true,
            _ => false,
        };
        if holds_value {
            return false;
        }
        let ghost before = self@;
        proof {
            crate::document_proofs::lemma_moved(before, t as int, from as int, to as int);
        }
        let table = &mut self.tables[t];
        let entry = table.entries.remove(from);
        table.entries.insert(to, entry);
        proof {
            let es = before.tables[t as int].entries;
            let want = es.remove(from as int).insert(to as int, es[from as int]);
            assert(self@.tables[t as int].entries =~= want);
            assert(self@.tables =~= before.moved(t as int, from as int, to as int).tables);
        }
        true
    }
}

} // verus!

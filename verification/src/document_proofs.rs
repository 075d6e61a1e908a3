//! Why the steps that build a document keep its invariant, and what they do
//! to its text.

use crate::decor::DecorView;
use crate::document::DocumentView;
use crate::key::KeyView;
use crate::table::{
    entries_text, headed, holds_values, EntryView, ItemView, TableKind, TableView,
};
use crate::value::ValueView;
use vstd::prelude::*;

verus! {

/// The table `after` still has the entries of `before` at their places, with
/// their keys, and each still holds the tables it held.
pub open spec fn table_kept(before: TableView, after: TableView) -> bool {
    &&& after.parent == before.parent
    &&& after.entries.len() >= before.entries.len()
    &&& forall|e: int|
        0 <= e < before.entries.len() ==> (#[trigger] after.entries[e]).key == before.entries[e].key
    &&& forall|e: int, c: usize|
        0 <= e < before.entries.len() && #[trigger] before.entries[e].item.refers(c)
            ==> after.entries[e].item.refers(c)
}

/// The kind of a table stayed, or an implicit table got a header.
pub open spec fn kind_kept(before: TableKind, after: TableKind) -> bool {
    after == before || (before == TableKind::Implicit && after == TableKind::Header)
}

impl DocumentView {
    /// Every table of `before` is still there, at its place, with its parent,
    /// its entries and a kind that fits.
    pub open spec fn grown_from(self, before: DocumentView) -> bool {
        &&& self.tables.len() >= before.tables.len()
        &&& forall|t: int|
            0 <= t < before.tables.len() ==> table_kept(before.tables[t], #[trigger] self.tables[t])
        &&& forall|t: int|
            0 <= t < before.tables.len() ==> kind_kept(
                before.tables[t].kind,
                (#[trigger] self.tables[t]).kind,
            )
    }
}

/// An item that could stand in a table can still stand there after the
/// document has grown.
pub proof fn lemma_item_ok_kept(before: DocumentView, after: DocumentView, t: int, item: ItemView)
    requires
        after.grown_from(before),
        0 <= t < before.tables.len(),
        before.item_ok(t, item),
    ensures
        after.item_ok(t, item),
{
    assert(table_kept(before.tables[t], after.tables[t]));
    assert(kind_kept(before.tables[t].kind, after.tables[t].kind));
    match item {
        ItemView::Value(v) => {},
        ItemView::Table(c) => {
            assert(table_kept(before.tables[c as int], after.tables[c as int]));
            assert(kind_kept(before.tables[c as int].kind, after.tables[c as int].kind));
        },
        ItemView::ArrayOfTables(v) => {
            assert forall|k: int| 0 <= k < v.len() implies after.element_ok(t, #[trigger] v[k]) by {
                assert(before.element_ok(t, v[k]));
                assert(table_kept(before.tables[v[k] as int], after.tables[v[k] as int]));
                assert(kind_kept(before.tables[v[k] as int].kind, after.tables[v[k] as int].kind));
            }
        },
    }
}

/// A table whose entries did not change is still in order after the document
/// has grown.
pub proof fn lemma_table_ok_kept(before: DocumentView, after: DocumentView, t: int)
    requires
        after.grown_from(before),
        0 <= t < before.tables.len(),
        before.table_ok(t),
        after.tables[t].entries == before.tables[t].entries,
    ensures
        after.table_ok(t),
{
    assert forall|e: int| 0 <= e < after.tables[t].entries.len() implies after.item_ok(
        t,
        #[trigger] after.tables[t].entries[e].item,
    ) by {
        lemma_item_ok_kept(before, after, t, before.tables[t].entries[e].item);
    }
}

/// A table that was held by its parent is still held after the document has
/// grown.
pub proof fn lemma_held_kept(before: DocumentView, after: DocumentView, c: int)
    requires
        after.grown_from(before),
        0 < c < before.tables.len(),
        before.held(c),
    ensures
        after.held(c),
        after.tables[c].parent == before.tables[c].parent,
{
    let p = before.tables[c].parent as int;
    assert(table_kept(before.tables[c], after.tables[c]));
    assert(kind_kept(before.tables[c].kind, after.tables[c].kind));
    assert(table_kept(before.tables[p], after.tables[p]));
    let e = before.slot_of(c);
    assert(before.tables[p].entries[e].item.refers(c as usize));
    assert(after.tables[p].entries[e].item.refers(c as usize));
}

/// The path of a table does not change when the document grows.
pub proof fn lemma_path_kept(before: DocumentView, after: DocumentView, t: int)
    requires
        before.wf(),
        after.wf(),
        after.grown_from(before),
        0 <= t < before.tables.len(),
    ensures
        after.path_text(t) == before.path_text(t),
    decreases t,
{
    assert(kind_kept(before.tables[t].kind, after.tables[t].kind));
    if t > 0 && before.tables[t].kind != TableKind::Detached {
        assert(before.placed(t));
        assert(after.placed(t));
        assert(table_kept(before.tables[t], after.tables[t]));
        let p = before.tables[t].parent as int;
        assert(table_kept(before.tables[p], after.tables[p]));
        let e = before.slot_of(t);
        let e2 = after.slot_of(t);
        assert(before.tables[p].entries[e].item.refers(t as usize));
        assert(after.tables[p].entries[e].item.refers(t as usize));
        assert(after.tables[p].entries[e2].item.refers(t as usize));
        assert(after.table_ok(p));
        assert(e == e2);
        assert(after.key_of(t) == before.key_of(t));
        if p > 0 {
            lemma_path_kept(before, after, p);
        }
    }
}

/// The text of a table does not change when the document grows, as long as
/// its kind, its decoration and the lines of its values stay.
pub proof fn lemma_table_text_kept(before: DocumentView, after: DocumentView, t: int)
    requires
        before.wf(),
        after.wf(),
        after.grown_from(before),
        0 <= t < before.tables.len(),
        after.tables[t].kind == before.tables[t].kind,
        after.tables[t].decor == before.tables[t].decor,
        after.tables[t].body_text() == before.tables[t].body_text(),
    ensures
        after.table_text(t) == before.table_text(t),
{
    lemma_path_kept(before, after, t);
}

/// The tables at the places `order` spell the same text after the document
/// has grown, as long as each of them spells the same text.
pub proof fn lemma_text_in_order_kept(before: DocumentView, after: DocumentView, order: Seq<usize>)
    requires
        forall|k: int|
            0 <= k < order.len() ==> after.table_text(#[trigger] order[k] as int)
                == before.table_text(order[k] as int),
    ensures
        after.text_in_order(order) == before.text_in_order(order),
    decreases order.len(),
{
    if order.len() > 0 {
        lemma_text_in_order_kept(before, after, order.drop_last());
        assert(order.last() == order[order.len() - 1]);
    }
}

/// The lines of a sequence of entries with one more entry.
pub proof fn lemma_entries_text_push(es: Seq<EntryView>, e: EntryView)
    ensures
        entries_text(es.push(e)) == entries_text(es) + e.text(),
{
    assert(es.push(e).drop_last() =~= es);
}

/// Replacing an entry by one with the same line leaves the lines as they
/// are.
pub proof fn lemma_entries_text_update(es: Seq<EntryView>, i: int, e: EntryView)
    requires
        0 <= i < es.len(),
        e.text() == es[i].text(),
    ensures
        entries_text(es.update(i, e)) == entries_text(es),
    decreases es.len(),
{
    let after = es.update(i, e);
    if i == es.len() - 1 {
        assert(after.drop_last() =~= es.drop_last());
    } else {
        assert(after.drop_last() =~= es.drop_last().update(i, e));
        lemma_entries_text_update(es.drop_last(), i, e);
    }
}

/// Entries that bind no value have no lines.
pub proof fn lemma_entries_text_empty(es: Seq<EntryView>)
    requires
        forall|e: int| 0 <= e < es.len() ==> !((#[trigger] es[e]).item is Value),
    ensures
        entries_text(es) == Seq::<u8>::empty(),
    decreases es.len(),
{
    if es.len() > 0 {
        lemma_entries_text_empty(es.drop_last());
        assert(!(es[es.len() - 1].item is Value));
    }
}

/// A document that holds nothing but its root is in order, and its tables
/// have no text.
pub proof fn lemma_start_wf(trailing: Seq<u8>)
    ensures
        DocumentView::start(trailing).wf(),
        DocumentView::start(trailing).text_in_order(DocumentView::start(trailing).order)
            == Seq::<u8>::empty(),
        DocumentView::start(trailing).headers() == Seq::<Seq<u8>>::empty(),
{
    let d = DocumentView::start(trailing);
    assert(d.table_ok(0));
    assert(d.listed_ok(0));
    assert forall|t: usize|
        t < d.tables.len() && headed(d.tables[t as int].kind) implies #[trigger] d.order.contains(
        t,
    ) by {}
    assert(d.order.drop_last() =~= Seq::empty());
    assert(d.text_in_order(d.order.drop_last()) =~= Seq::<u8>::empty());
    assert(d.table_text(0) =~= Seq::<u8>::empty());
    assert(d.headers() =~= Seq::<Seq<u8>>::empty());
}

/// Appending a value under a new name keeps the document in order.
pub proof fn lemma_with_value_wf(d: DocumentView, t: int, key: KeyView, value: ValueView)
    requires
        d.wf(),
        0 <= t < d.tables.len(),
        holds_values(d.tables[t].kind),
        !d.tables[t].has(key.name),
        value.wf(),
    ensures
        d.with_value(t, key, value).wf(),
        d.with_value(t, key, value).grown_from(d),
{
    let n = d.with_value(t, key, value);
    let entry = EntryView { key, item: ItemView::Value(value) };
    assert(n.grown_from(d)) by {
        assert forall|x: int| 0 <= x < d.tables.len() implies table_kept(
            d.tables[x],
            #[trigger] n.tables[x],
        ) by {}
    }
    assert forall|c: int| 0 < c < n.tables.len() implies #[trigger] n.placed(c) by {
        assert(d.placed(c));
        assert(kind_kept(d.tables[c].kind, n.tables[c].kind));
        if d.tables[c].kind != TableKind::Detached {
            lemma_held_kept(d, n, c);
        } else {
            assert(n.tables[c] == d.tables[c]);
        }
    }
    assert forall|x: int| 0 <= x < n.tables.len() implies #[trigger] n.table_ok(x) by {
        assert(d.table_ok(x));
        if x != t {
            lemma_table_ok_kept(d, n, x);
        } else {
            let old_es = d.tables[t].entries;
            let new_es = n.tables[t].entries;
            assert forall|i: int, j: int| 0 <= i < j < new_es.len() implies (
            #[trigger] new_es[i]).key.name != (#[trigger] new_es[j]).key.name by {
                if j == new_es.len() - 1 {
                    assert(old_es[i].key.name != key.name);
                } else {
                    assert(old_es[i].key.name != old_es[j].key.name);
                }
            }
            assert forall|i: int, j: int, c: usize|
                0 <= i < new_es.len() && 0 <= j < new_es.len() && (
                #[trigger] new_es[i].item.refers(c)) && (#[trigger] new_es[j].item.refers(
                    c,
                )) implies i == j by {
                assert(old_es[i].item.refers(c));
                assert(old_es[j].item.refers(c));
            }
            assert forall|e: int| 0 <= e < new_es.len() implies n.item_ok(
                t,
                #[trigger] new_es[e].item,
            ) by {
                if e < old_es.len() {
                    lemma_item_ok_kept(d, n, t, old_es[e].item);
                }
            }
        }
    }
    assert(n.order_ok()) by {
        assert forall|k: int| 0 <= k < n.order.len() implies #[trigger] n.listed_ok(k) by {
            assert(d.listed_ok(k));
        }
        assert forall|x: usize|
            x < n.tables.len() && headed(n.tables[x as int].kind) implies #[trigger] n.order.contains(
            x,
        ) by {
            assert(d.order.contains(x));
        }
    }
}

/// What adding a table asks of the new entries of its parent: the entries
/// that were there are kept, names and held tables are distinct, every item
/// can stand there, and one entry holds the new table.
pub open spec fn entries_fit(
    d: DocumentView,
    parent: int,
    entries: Seq<EntryView>,
    kind: TableKind,
    decor: DecorView,
) -> bool {
    let after = d.with_new_table(parent, entries, kind, decor);
    let table = TableView { entries, ..d.tables[parent] };
    &&& d.wf()
    &&& 0 <= parent < d.tables.len()
    &&& d.tables.len() < usize::MAX
    &&& d.tables[parent].kind != TableKind::Detached
    &&& kind != TableKind::Root
    &&& kind != TableKind::Detached
    &&& table_kept(d.tables[parent], table)
    &&& table.distinct_names()
    &&& table.distinct_children()
    &&& forall|e: int| 0 <= e < entries.len() ==> after.item_ok(parent, #[trigger] entries[e].item)
    &&& exists|e: int| 0 <= e < entries.len() && #[trigger] entries[e].item.refers(d.tables.len() as usize)
}

/// A document with a new table has grown from the one without.
pub proof fn lemma_with_new_table_grown(
    d: DocumentView,
    parent: int,
    entries: Seq<EntryView>,
    kind: TableKind,
    decor: DecorView,
)
    requires
        0 <= parent < d.tables.len(),
        table_kept(d.tables[parent], TableView { entries, ..d.tables[parent] }),
    ensures
        d.with_new_table(parent, entries, kind, decor).grown_from(d),
{
    let n = d.with_new_table(parent, entries, kind, decor);
    assert forall|x: int| 0 <= x < d.tables.len() implies table_kept(
        d.tables[x],
        #[trigger] n.tables[x],
    ) by {}
}

/// Adding a table keeps the document in order.
pub proof fn lemma_with_new_table_wf(
    d: DocumentView,
    parent: int,
    entries: Seq<EntryView>,
    kind: TableKind,
    decor: DecorView,
)
    requires
        entries_fit(d, parent, entries, kind, decor),
    ensures
        d.with_new_table(parent, entries, kind, decor).wf(),
        d.with_new_table(parent, entries, kind, decor).grown_from(d),
{
    let n = d.with_new_table(parent, entries, kind, decor);
    let place = d.tables.len() as int;
    lemma_with_new_table_grown(d, parent, entries, kind, decor);
    assert forall|c: int| 0 < c < n.tables.len() implies #[trigger] n.placed(c) by {
        if c < place {
            assert(d.placed(c));
            assert(kind_kept(d.tables[c].kind, n.tables[c].kind));
            if d.tables[c].kind != TableKind::Detached {
                lemma_held_kept(d, n, c);
            } else {
                assert(n.tables[c] == d.tables[c]);
            }
        }
    }
    assert forall|x: int| 0 <= x < n.tables.len() implies #[trigger] n.table_ok(x) by {
        if x == place {
        } else if x != parent {
            assert(d.table_ok(x));
            lemma_table_ok_kept(d, n, x);
        }
    }
    assert(n.order_ok()) by {
        assert forall|k: int| 0 <= k < n.order.len() implies #[trigger] n.listed_ok(k) by {
            if k < d.order.len() {
                assert(d.listed_ok(k));
            }
        }
        assert forall|i: int, j: int| 0 <= i < j < n.order.len() implies n.order[i]
            != n.order[j] by {
            assert(d.listed_ok(i));
            if j < d.order.len() {
                assert(d.listed_ok(j));
            }
        }
        assert forall|x: usize|
            x < n.tables.len() && headed(n.tables[x as int].kind) implies #[trigger] n.order.contains(
            x,
        ) by {
            if x < place {
                assert(d.order.contains(x));
                let k = choose|k: int| 0 <= k < d.order.len() && d.order[k] == x;
                assert(n.order[k] == x);
            } else {
                assert(n.order[n.order.len() - 1] == x);
            }
        }
    }
}

/// Adding a table leaves the text of the tables that were there as it is,
/// as long as the lines of the parent's values stay.
pub proof fn lemma_with_new_table_text(
    d: DocumentView,
    parent: int,
    entries: Seq<EntryView>,
    kind: TableKind,
    decor: DecorView,
)
    requires
        entries_fit(d, parent, entries, kind, decor),
        entries_text(entries) == entries_text(d.tables[parent].entries),
    ensures
        forall|t: int|
            0 <= t < d.tables.len() ==> #[trigger] d.with_new_table(
                parent,
                entries,
                kind,
                decor,
            ).table_text(t) == d.table_text(t),
        forall|t: int|
            0 <= t < d.tables.len() ==> #[trigger] d.with_new_table(
                parent,
                entries,
                kind,
                decor,
            ).header_text(t) == d.header_text(t),
        d.with_new_table(parent, entries, kind, decor).text_in_order(d.order) == d.text_in_order(
            d.order,
        ),
        d.with_new_table(parent, entries, kind, decor).table_text(d.tables.len() as int)
            == d.with_new_table(parent, entries, kind, decor).heading(d.tables.len() as int),
{
    let n = d.with_new_table(parent, entries, kind, decor);
    lemma_with_new_table_wf(d, parent, entries, kind, decor);
    assert forall|t: int| 0 <= t < d.tables.len() implies #[trigger] n.table_text(t)
        == d.table_text(t) by {
        lemma_table_text_kept(d, n, t);
    }
    assert forall|t: int| 0 <= t < d.tables.len() implies #[trigger] n.header_text(t)
        == d.header_text(t) by {
        lemma_path_kept(d, n, t);
    }
    assert forall|k: int| 0 <= k < d.order.len() implies n.table_text(#[trigger] d.order[k] as int)
        == d.table_text(d.order[k] as int) by {
        assert(d.listed_ok(k));
    }
    lemma_text_in_order_kept(d, n, d.order);
    let place = d.tables.len() as int;
    assert(n.tables[place].body_text() =~= Seq::<u8>::empty());
    assert(n.table_text(place) =~= n.heading(place));
}

/// A new table under a new name fits.
pub proof fn lemma_with_table_fits(
    d: DocumentView,
    parent: int,
    key: KeyView,
    kind: TableKind,
    decor: DecorView,
)
    requires
        d.wf(),
        0 <= parent < d.tables.len(),
        d.tables.len() < usize::MAX,
        d.tables[parent].kind != TableKind::Detached,
        kind == TableKind::Implicit || kind == TableKind::Header,
        !d.tables[parent].has(key.name),
    ensures
        entries_fit(
            d,
            parent,
            d.tables[parent].entries.push(
                EntryView { key, item: ItemView::Table(d.tables.len() as usize) },
            ),
            kind,
            decor,
        ),
        entries_text(
            d.tables[parent].entries.push(
                EntryView { key, item: ItemView::Table(d.tables.len() as usize) },
            ),
        ) == entries_text(d.tables[parent].entries),
{
    let place = d.tables.len() as usize;
    let entry = EntryView { key, item: ItemView::Table(place) };
    lemma_pushed_entry_fits(d, parent, entry, kind, decor);
}

/// A new array of tables under a new name fits.
pub proof fn lemma_with_array_fits(d: DocumentView, parent: int, key: KeyView, decor: DecorView)
    requires
        d.wf(),
        0 <= parent < d.tables.len(),
        d.tables.len() < usize::MAX,
        d.tables[parent].kind != TableKind::Detached,
        !d.tables[parent].has(key.name),
    ensures
        entries_fit(
            d,
            parent,
            d.tables[parent].entries.push(
                EntryView { key, item: ItemView::ArrayOfTables(seq![d.tables.len() as usize]) },
            ),
            TableKind::ArrayElement,
            decor,
        ),
        entries_text(
            d.tables[parent].entries.push(
                EntryView { key, item: ItemView::ArrayOfTables(seq![d.tables.len() as usize]) },
            ),
        ) == entries_text(d.tables[parent].entries),
{
    let place = d.tables.len() as usize;
    let entry = EntryView { key, item: ItemView::ArrayOfTables(seq![place]) };
    assert(seq![place][0] == place);
    assert(seq![place].contains(place));
    lemma_pushed_entry_fits(d, parent, entry, TableKind::ArrayElement, decor);
}

/// An entry under a new name that holds the new table, and no other, fits at
/// the end of the parent's entries.
pub proof fn lemma_pushed_entry_fits(
    d: DocumentView,
    parent: int,
    entry: EntryView,
    kind: TableKind,
    decor: DecorView,
)
    requires
        d.wf(),
        0 <= parent < d.tables.len(),
        d.tables.len() < usize::MAX,
        d.tables[parent].kind != TableKind::Detached,
        !d.tables[parent].has(entry.key.name),
        entry.item.refers(d.tables.len() as usize),
        forall|c: usize| entry.item.refers(c) ==> c == d.tables.len(),
        match entry.item {
            ItemView::Value(_) => false,
            ItemView::Table(_) => kind == TableKind::Implicit || kind == TableKind::Header,
            ItemView::ArrayOfTables(v) => kind == TableKind::ArrayElement && v.len() == 1,
        },
    ensures
        entries_fit(d, parent, d.tables[parent].entries.push(entry), kind, decor),
        entries_text(d.tables[parent].entries.push(entry)) == entries_text(
            d.tables[parent].entries,
        ),
{
    let place = d.tables.len() as usize;
    let old_es = d.tables[parent].entries;
    let new_es = old_es.push(entry);
    let n = d.with_new_table(parent, new_es, kind, decor);
    let table = TableView { entries: new_es, ..d.tables[parent] };
    assert(d.table_ok(parent));
    lemma_with_new_table_grown(d, parent, new_es, kind, decor);
    assert forall|i: int, j: int| 0 <= i < j < new_es.len() implies (#[trigger] new_es[i]).key.name
        != (#[trigger] new_es[j]).key.name by {
        if j == new_es.len() - 1 {
            assert(old_es[i].key.name != entry.key.name);
        } else {
            assert(old_es[i].key.name != old_es[j].key.name);
        }
    }
    assert forall|e: int, c: usize| 0 <= e < old_es.len() && #[trigger] old_es[e].item.refers(
        c,
    ) implies c < place by {
        assert(d.item_ok(parent, old_es[e].item));
        match old_es[e].item {
            ItemView::ArrayOfTables(v) => {
                let k = choose|k: int| 0 <= k < v.len() && v[k] == c;
                assert(d.element_ok(parent, v[k]));
            },
            _ => {},
        }
    }
    assert forall|i: int, j: int, c: usize|
        0 <= i < new_es.len() && 0 <= j < new_es.len() && (#[trigger] new_es[i].item.refers(c)) && (
        #[trigger] new_es[j].item.refers(c)) implies i == j by {
        if i < old_es.len() && j < old_es.len() {
            assert(old_es[i].item.refers(c));
            assert(old_es[j].item.refers(c));
        } else if i < old_es.len() {
            assert(old_es[i].item.refers(c));
        } else if j < old_es.len() {
            assert(old_es[j].item.refers(c));
        }
    }
    assert forall|e: int| 0 <= e < new_es.len() implies n.item_ok(
        parent,
        #[trigger] new_es[e].item,
    ) by {
        if e < old_es.len() {
            lemma_item_ok_kept(d, n, parent, old_es[e].item);
        } else {
            match entry.item {
                ItemView::ArrayOfTables(v) => {
                    assert(v.contains(place));
                    assert forall|k: int| 0 <= k < v.len() implies n.element_ok(
                        parent,
                        #[trigger] v[k],
                    ) by {
                        assert(v.contains(v[k]));
                    }
                },
                _ => {},
            }
        }
    }
    assert(new_es[old_es.len() as int].item.refers(place));
    lemma_entries_text_push(old_es, entry);
    assert(entry.text() =~= Seq::<u8>::empty());
    assert(entries_text(new_es) =~= entries_text(old_es));
}

/// One more table in an array of tables fits.
pub proof fn lemma_with_element_fits(d: DocumentView, parent: int, e: int, decor: DecorView)
    requires
        d.wf(),
        0 <= parent < d.tables.len(),
        d.tables.len() < usize::MAX,
        0 <= e < d.tables[parent].entries.len(),
        d.tables[parent].entries[e].item is ArrayOfTables,
    ensures
        entries_fit(
            d,
            parent,
            d.tables[parent].entries.update(
                e,
                EntryView {
                    key: d.tables[parent].entries[e].key,
                    item: ItemView::ArrayOfTables(
                        d.tables[parent].entries[e].item->ArrayOfTables_0.push(
                            d.tables.len() as usize,
                        ),
                    ),
                },
            ),
            TableKind::ArrayElement,
            decor,
        ),
        entries_text(
            d.tables[parent].entries.update(
                e,
                EntryView {
                    key: d.tables[parent].entries[e].key,
                    item: ItemView::ArrayOfTables(
                        d.tables[parent].entries[e].item->ArrayOfTables_0.push(
                            d.tables.len() as usize,
                        ),
                    ),
                },
            ),
        ) == entries_text(d.tables[parent].entries),
{
    let place = d.tables.len() as usize;
    let old_es = d.tables[parent].entries;
    let old_v = old_es[e].item->ArrayOfTables_0;
    let new_v = old_v.push(place);
    let entry = EntryView { key: old_es[e].key, item: ItemView::ArrayOfTables(new_v) };
    let new_es = old_es.update(e, entry);
    let kind = TableKind::ArrayElement;
    let n = d.with_new_table(parent, new_es, kind, decor);
    assert(d.table_ok(parent));
    assert(d.item_ok(parent, old_es[e].item));
    if parent > 0 {
        assert(d.placed(parent));
    }
    assert forall|x: int, c: usize| 0 <= x < old_es.len() && #[trigger] old_es[x].item.refers(
        c,
    ) implies new_es[x].item.refers(c) && c < place by {
        assert(d.item_ok(parent, old_es[x].item));
        match old_es[x].item {
            ItemView::ArrayOfTables(v) => {
                let k = choose|k: int| 0 <= k < v.len() && v[k] == c;
                assert(d.element_ok(parent, v[k]));
                if x == e {
                    assert(new_v[k] == c);
                }
            },
            _ => {},
        }
    }
    lemma_with_new_table_grown(d, parent, new_es, kind, decor);
    assert forall|i: int, j: int| 0 <= i < j < new_es.len() implies (#[trigger] new_es[i]).key.name
        != (#[trigger] new_es[j]).key.name by {
        assert(old_es[i].key.name != old_es[j].key.name);
    }
    assert forall|x: int, c: usize| 0 <= x < new_es.len() && #[trigger] new_es[x].item.refers(
        c,
    ) && c != place implies old_es[x].item.refers(c) by {
        if x == e {
            let k = choose|k: int| 0 <= k < new_v.len() && new_v[k] == c;
            assert(old_v[k] == c);
        }
    }
    assert forall|x: int| 0 <= x < new_es.len() && #[trigger] new_es[x].item.refers(
        place,
    ) implies x == e by {
        if x != e {
            assert(old_es[x].item.refers(place));
        }
    }
    assert forall|i: int, j: int, c: usize|
        0 <= i < new_es.len() && 0 <= j < new_es.len() && (#[trigger] new_es[i].item.refers(c)) && (
        #[trigger] new_es[j].item.refers(c)) implies i == j by {
        if c != place {
            assert(old_es[i].item.refers(c));
            assert(old_es[j].item.refers(c));
        }
    }
    assert forall|x: int| 0 <= x < new_es.len() implies n.item_ok(
        parent,
        #[trigger] new_es[x].item,
    ) by {
        if x != e {
            lemma_item_ok_kept(d, n, parent, old_es[x].item);
        } else {
            lemma_item_ok_kept(d, n, parent, old_es[e].item);
            assert forall|k: int| 0 <= k < new_v.len() implies n.element_ok(
                parent,
                #[trigger] new_v[k],
            ) by {
                if k < old_v.len() {
                    assert(n.element_ok(parent, old_v[k]));
                }
            }
            assert forall|i: int, j: int| 0 <= i < j < new_v.len() implies new_v[i] < new_v[j] by {
                if j == new_v.len() - 1 {
                    assert(d.element_ok(parent, old_v[i]));
                }
            }
        }
    }
    assert(new_v[new_v.len() - 1] == place);
    assert(new_es[e].item.refers(place));
    assert(entry.text() =~= old_es[e].text());
    lemma_entries_text_update(old_es, e, entry);
}

/// What appending a value does to the text: the line of the entry comes
/// behind the lines of its table, and nothing else changes.
pub proof fn lemma_with_value_text(d: DocumentView, t: int, key: KeyView, value: ValueView)
    requires
        d.wf(),
        0 <= t < d.tables.len(),
        holds_values(d.tables[t].kind),
        !d.tables[t].has(key.name),
        value.wf(),
    ensures
        forall|x: int|
            0 <= x < d.tables.len() ==> #[trigger] d.with_value(t, key, value).header_text(x)
                == d.header_text(x),
        forall|x: int|
            0 <= x < d.tables.len() && x != t ==> #[trigger] d.with_value(t, key, value).table_text(
                x,
            ) == d.table_text(x),
        d.with_value(t, key, value).table_text(t) == d.table_text(t) + (EntryView {
            key,
            item: ItemView::Value(value),
        }).text(),
        d.order.last() == t ==> d.with_value(t, key, value).text_in_order(d.order)
            == d.text_in_order(d.order) + (EntryView { key, item: ItemView::Value(value) }).text(),
{
    let n = d.with_value(t, key, value);
    let entry = EntryView { key, item: ItemView::Value(value) };
    lemma_with_value_wf(d, t, key, value);
    assert forall|x: int| 0 <= x < d.tables.len() implies #[trigger] n.header_text(x)
        == d.header_text(x) by {
        lemma_path_kept(d, n, x);
    }
    assert forall|x: int| 0 <= x < d.tables.len() && x != t implies #[trigger] n.table_text(x)
        == d.table_text(x) by {
        lemma_table_text_kept(d, n, x);
    }
    lemma_path_kept(d, n, t);
    lemma_entries_text_push(d.tables[t].entries, entry);
    assert(n.table_text(t) =~= d.table_text(t) + entry.text());
    if d.order.last() == t {
        let front = d.order.drop_last();
        assert forall|k: int| 0 <= k < front.len() implies n.table_text(#[trigger] front[k] as int)
            == d.table_text(front[k] as int) by {
            assert(d.listed_ok(k));
            assert(d.order[k] != d.order[d.order.len() - 1]);
        }
        lemma_text_in_order_kept(d, n, front);
        assert(n.text_in_order(d.order) =~= d.text_in_order(d.order) + entry.text());
    }
}

/// An implicit table holds no values, so it has no lines.
pub proof fn lemma_implicit_body(d: DocumentView, t: int)
    requires
        d.wf(),
        0 <= t < d.tables.len(),
        d.tables[t].kind == TableKind::Implicit,
    ensures
        d.tables[t].body_text() == Seq::<u8>::empty(),
{
    assert(d.table_ok(t));
    assert forall|e: int| 0 <= e < d.tables[t].entries.len() implies !((
    #[trigger] d.tables[t].entries[e]).item is Value) by {
        assert(d.item_ok(t, d.tables[t].entries[e].item));
    }
    lemma_entries_text_empty(d.tables[t].entries);
}

/// Giving an implicit table a header keeps the document in order; the header
/// is written last and nothing else changes in the text.
pub proof fn lemma_made_explicit(d: DocumentView, t: int, decor: DecorView)
    requires
        d.wf(),
        0 <= t < d.tables.len(),
        d.tables[t].kind == TableKind::Implicit,
    ensures
        d.made_explicit(t, decor).wf(),
        d.made_explicit(t, decor).grown_from(d),
        forall|x: int|
            0 <= x < d.tables.len() ==> #[trigger] d.made_explicit(t, decor).header_text(x)
                == d.header_text(x),
        d.made_explicit(t, decor).text_in_order(d.order) == d.text_in_order(d.order),
        d.made_explicit(t, decor).table_text(t) == d.made_explicit(t, decor).heading(t),
{
    let n = d.made_explicit(t, decor);
    assert(n.grown_from(d)) by {
        assert forall|x: int| 0 <= x < d.tables.len() implies table_kept(
            d.tables[x],
            #[trigger] n.tables[x],
        ) by {}
    }
    assert forall|c: int| 0 < c < n.tables.len() implies #[trigger] n.placed(c) by {
        assert(d.placed(c));
        assert(kind_kept(d.tables[c].kind, n.tables[c].kind));
        if d.tables[c].kind != TableKind::Detached {
            lemma_held_kept(d, n, c);
        } else {
            assert(n.tables[c] == d.tables[c]);
        }
    }
    assert forall|x: int| 0 <= x < n.tables.len() implies #[trigger] n.table_ok(x) by {
        assert(d.table_ok(x));
        lemma_table_ok_kept(d, n, x);
    }
    assert forall|k: int| 0 <= k < d.order.len() implies d.order[k] != t by {
        assert(d.listed_ok(k));
    }
    assert(n.order_ok()) by {
        assert forall|k: int| 0 <= k < n.order.len() implies #[trigger] n.listed_ok(k) by {
            if k < d.order.len() {
                assert(d.listed_ok(k));
            }
        }
        assert forall|x: usize|
            x < n.tables.len() && headed(n.tables[x as int].kind) implies #[trigger] n.order.contains(
            x,
        ) by {
            if x != t {
                assert(d.order.contains(x));
                let k = choose|k: int| 0 <= k < d.order.len() && d.order[k] == x;
                assert(n.order[k] == x);
            } else {
                assert(n.order[n.order.len() - 1] == x);
            }
        }
    }
    assert forall|x: int| 0 <= x < d.tables.len() implies #[trigger] n.header_text(x)
        == d.header_text(x) by {
        lemma_path_kept(d, n, x);
    }
    assert forall|k: int| 0 <= k < d.order.len() implies n.table_text(#[trigger] d.order[k] as int)
        == d.table_text(d.order[k] as int) by {
        assert(d.listed_ok(k));
        lemma_table_text_kept(d, n, d.order[k] as int);
    }
    lemma_text_in_order_kept(d, n, d.order);
    lemma_implicit_body(d, t);
    assert(n.table_text(t) =~= n.heading(t));
}

/// The place that the entry `e` has after the entries `i` and `j` changed
/// places.
pub open spec fn moved(e: int, i: int, j: int) -> int {
    if e == i {
        j
    } else if e == j {
        i
    } else {
        e
    }
}

/// The path of a table does not change when two entries of a table change
/// places.
pub proof fn lemma_swapped_path(d: DocumentView, t: int, i: int, j: int, c: int)
    requires
        d.wf(),
        d.swapped(t, i, j).wf(),
        d.can_swap(t, i, j),
        0 <= c < d.tables.len(),
    ensures
        d.swapped(t, i, j).path_text(c) == d.path_text(c),
    decreases c,
{
    let n = d.swapped(t, i, j);
    if c > 0 && d.tables[c].kind != TableKind::Detached {
        assert(d.placed(c));
        assert(n.placed(c));
        let p = d.tables[c].parent as int;
        let e = d.slot_of(c);
        let e2 = n.slot_of(c);
        assert(d.tables[p].entries[e].item.refers(c as usize));
        assert(n.tables[p].entries[e2].item.refers(c as usize));
        assert(n.table_ok(p));
        if p == t {
            let m = moved(e, i, j);
            assert(n.tables[p].entries[m] == d.tables[p].entries[e]);
            assert(n.tables[p].entries[m].item.refers(c as usize));
            assert(e2 == m);
        } else {
            assert(n.tables[p].entries[e].item.refers(c as usize));
            assert(e2 == e);
        }
        assert(n.key_of(c) == d.key_of(c));
        if p > 0 {
            lemma_swapped_path(d, t, i, j, p);
        }
    }
}

/// Letting two sibling tables change places keeps the document in order and
/// leaves its text in the original order as it is.
pub proof fn lemma_swapped(d: DocumentView, t: int, i: int, j: int)
    requires
        d.wf(),
        d.can_swap(t, i, j),
    ensures
        d.swapped(t, i, j).wf(),
        d.swapped(t, i, j).original_text() == d.original_text(),
        forall|c: int|
            0 <= c < d.tables.len() ==> #[trigger] d.swapped(t, i, j).table_text(c) == d.table_text(
                c,
            ),
{
    let n = d.swapped(t, i, j);
    let old_es = d.tables[t].entries;
    let new_es = n.tables[t].entries;
    assert(d.table_ok(t));
    assert forall|e: int| 0 <= e < new_es.len() implies #[trigger] new_es[e] == old_es[moved(
        e,
        i,
        j,
    )] by {}
    assert forall|x: int, item: ItemView| 0 <= x < d.tables.len() && d.item_ok(x, item) implies n.item_ok(x, item) by {
        match item {
            ItemView::ArrayOfTables(v) => {
                assert forall|k: int| 0 <= k < v.len() implies n.element_ok(x, #[trigger] v[k]) by {
                    assert(d.element_ok(x, v[k]));
                }
            },
            _ => {},
        }
    }
    assert forall|c: int| 0 < c < n.tables.len() implies #[trigger] n.placed(c) by {
        assert(d.placed(c));
        if d.tables[c].kind == TableKind::Detached {
            assert(n.tables[c] == d.tables[c]);
        } else {
            let p = d.tables[c].parent as int;
            let e = d.slot_of(c);
            assert(d.tables[p].entries[e].item.refers(c as usize));
            if p == t {
                let m = moved(e, i, j);
                assert(new_es[m] == old_es[e]);
                assert(n.tables[p].entries[m].item.refers(c as usize));
            } else {
                assert(n.tables[p].entries[e].item.refers(c as usize));
            }
        }
    }
    assert forall|x: int| 0 <= x < n.tables.len() implies #[trigger] n.table_ok(x) by {
        assert(d.table_ok(x));
        if x == t {
            assert forall|a: int, b: int| 0 <= a < b < new_es.len() implies (
            #[trigger] new_es[a]).key.name != (#[trigger] new_es[b]).key.name by {
                let a0 = moved(a, i, j);
                let b0 = moved(b, i, j);
                if a0 < b0 {
                    assert(old_es[a0].key.name != old_es[b0].key.name);
                } else {
                    assert(old_es[b0].key.name != old_es[a0].key.name);
                }
            }
            assert forall|a: int, b: int, c: usize|
                0 <= a < new_es.len() && 0 <= b < new_es.len() && (
                #[trigger] new_es[a].item.refers(c)) && (
                #[trigger] new_es[b].item.refers(c)) implies a == b by {
                let a0 = moved(a, i, j);
                let b0 = moved(b, i, j);
                assert(old_es[a0].item.refers(c));
                assert(old_es[b0].item.refers(c));
            }
            assert forall|e: int| 0 <= e < new_es.len() implies n.item_ok(
                t,
                #[trigger] new_es[e].item,
            ) by {
                assert(d.item_ok(t, old_es[moved(e, i, j)].item));
            }
        } else {
            assert forall|e: int| 0 <= e < n.tables[x].entries.len() implies n.item_ok(
                x,
                #[trigger] n.tables[x].entries[e].item,
            ) by {
                assert(d.item_ok(x, d.tables[x].entries[e].item));
            }
        }
    }
    assert(n.order_ok()) by {
        assert forall|k: int| 0 <= k < n.order.len() implies #[trigger] n.listed_ok(k) by {
            assert(d.listed_ok(k));
        }
        assert forall|x: usize|
            x < n.tables.len() && headed(n.tables[x as int].kind) implies #[trigger] n.order.contains(
            x,
        ) by {
            assert(d.order.contains(x));
        }
    }
    assert(n.wf());
    assert(n.tables[t].body_text() == d.tables[t].body_text()) by {
        let mid = old_es.update(i, old_es[j]);
        assert(old_es[j].text() =~= old_es[i].text());
        lemma_entries_text_update(old_es, i, old_es[j]);
        assert(mid[j].text() =~= old_es[i].text());
        lemma_entries_text_update(mid, j, old_es[i]);
    }
    assert forall|c: int| 0 <= c < d.tables.len() implies #[trigger] n.table_text(c)
        == d.table_text(c) by {
        lemma_swapped_path(d, t, i, j, c);
    }
    assert forall|k: int| 0 <= k < d.order.len() implies n.table_text(#[trigger] d.order[k] as int)
        == d.table_text(d.order[k] as int) by {
        assert(d.listed_ok(k));
    }
    lemma_text_in_order_kept(d, n, d.order);
}

/// Binding a key that holds a value to another value keeps the document in
/// order.
pub proof fn lemma_with_replaced(d: DocumentView, t: int, e: int, value: ValueView)
    requires
        d.wf(),
        0 <= t < d.tables.len(),
        0 <= e < d.tables[t].entries.len(),
        d.tables[t].entries[e].item is Value,
        value.wf(),
    ensures
        d.with_replaced(t, e, value).wf(),
{
    let n = d.with_replaced(t, e, value);
    let old_es = d.tables[t].entries;
    let new_es = n.tables[t].entries;
    assert(d.table_ok(t));
    assert(d.item_ok(t, old_es[e].item));
    assert(n.grown_from(d)) by {
        assert forall|x: int| 0 <= x < d.tables.len() implies table_kept(
            d.tables[x],
            #[trigger] n.tables[x],
        ) by {}
    }
    assert forall|c: int| 0 < c < n.tables.len() implies #[trigger] n.placed(c) by {
        assert(d.placed(c));
        assert(kind_kept(d.tables[c].kind, n.tables[c].kind));
        if d.tables[c].kind != TableKind::Detached {
            lemma_held_kept(d, n, c);
        } else {
            assert(n.tables[c] == d.tables[c]);
        }
    }
    assert forall|x: int| 0 <= x < n.tables.len() implies #[trigger] n.table_ok(x) by {
        assert(d.table_ok(x));
        if x != t {
            lemma_table_ok_kept(d, n, x);
        } else {
            assert forall|i: int, j: int| 0 <= i < j < new_es.len() implies (
            #[trigger] new_es[i]).key.name != (#[trigger] new_es[j]).key.name by {
                assert(old_es[i].key.name != old_es[j].key.name);
            }
            assert forall|i: int, j: int, c: usize|
                0 <= i < new_es.len() && 0 <= j < new_es.len() && (
                #[trigger] new_es[i].item.refers(c)) && (#[trigger] new_es[j].item.refers(
                    c,
                )) implies i == j by {
                assert(old_es[i].item.refers(c));
                assert(old_es[j].item.refers(c));
            }
            assert forall|i: int| 0 <= i < new_es.len() implies n.item_ok(
                t,
                #[trigger] new_es[i].item,
            ) by {
                if i != e {
                    lemma_item_ok_kept(d, n, t, old_es[i].item);
                }
            }
        }
    }
    assert(n.order_ok()) by {
        assert forall|k: int| 0 <= k < n.order.len() implies #[trigger] n.listed_ok(k) by {
            assert(d.listed_ok(k));
        }
        assert forall|x: usize|
            x < n.tables.len() && headed(n.tables[x as int].kind) implies #[trigger] n.order.contains(
            x,
        ) by {
            assert(d.order.contains(x));
        }
    }
}

/// Taking an entry that holds a value out of its table keeps the document in
/// order.
pub proof fn lemma_without_entry(d: DocumentView, t: int, e: int)
    requires
        d.wf(),
        0 <= t < d.tables.len(),
        0 <= e < d.tables[t].entries.len(),
        d.tables[t].entries[e].item is Value,
    ensures
        d.without_entry(t, e).wf(),
{
    let n = d.without_entry(t, e);
    let old_es = d.tables[t].entries;
    let new_es = n.tables[t].entries;
    assert(d.table_ok(t));
    assert forall|i: int| 0 <= i < new_es.len() implies #[trigger] new_es[i] == old_es[if i < e {
        i
    } else {
        i + 1
    }] by {}
    assert forall|x: int, item: ItemView| 0 <= x < d.tables.len() && d.item_ok(x, item) implies n.item_ok(x, item) by {
        match item {
            ItemView::ArrayOfTables(v) => {
                assert forall|k: int| 0 <= k < v.len() implies n.element_ok(x, #[trigger] v[k]) by {
                    assert(d.element_ok(x, v[k]));
                }
            },
            _ => {},
        }
    }
    assert forall|c: int| 0 < c < n.tables.len() implies #[trigger] n.placed(c) by {
        assert(d.placed(c));
        if d.tables[c].kind == TableKind::Detached {
            assert(n.tables[c] == d.tables[c]);
        } else {
            let p = d.tables[c].parent as int;
            let s = d.slot_of(c);
            assert(d.tables[p].entries[s].item.refers(c as usize));
            if p == t {
                let m = if s < e {
                    s
                } else {
                    s - 1
                };
                assert(new_es[m] == old_es[s]);
                assert(n.tables[p].entries[m].item.refers(c as usize));
            } else {
                assert(n.tables[p].entries[s].item.refers(c as usize));
            }
        }
    }
    assert forall|x: int| 0 <= x < n.tables.len() implies #[trigger] n.table_ok(x) by {
        assert(d.table_ok(x));
        if x == t {
            assert forall|a: int, b: int| 0 <= a < b < new_es.len() implies (
            #[trigger] new_es[a]).key.name != (#[trigger] new_es[b]).key.name by {
                let a0 = if a < e {
                    a
                } else {
                    a + 1
                };
                let b0 = if b < e {
                    b
                } else {
                    b + 1
                };
                assert(old_es[a0].key.name != old_es[b0].key.name);
            }
            assert forall|a: int, b: int, c: usize|
                0 <= a < new_es.len() && 0 <= b < new_es.len() && (
                #[trigger] new_es[a].item.refers(c)) && (
                #[trigger] new_es[b].item.refers(c)) implies a == b by {
                let a0 = if a < e {
                    a
                } else {
                    a + 1
                };
                let b0 = if b < e {
                    b
                } else {
                    b + 1
                };
                assert(old_es[a0].item.refers(c));
                assert(old_es[b0].item.refers(c));
            }
            assert forall|i: int| 0 <= i < new_es.len() implies n.item_ok(
                t,
                #[trigger] new_es[i].item,
            ) by {
                let i0 = if i < e {
                    i
                } else {
                    i + 1
                };
                assert(d.item_ok(t, old_es[i0].item));
            }
        } else {
            assert forall|i: int| 0 <= i < n.tables[x].entries.len() implies n.item_ok(
                x,
                #[trigger] n.tables[x].entries[i].item,
            ) by {
                assert(d.item_ok(x, d.tables[x].entries[i].item));
            }
        }
    }
    assert(n.order_ok()) by {
        assert forall|k: int| 0 <= k < n.order.len() implies #[trigger] n.listed_ok(k) by {
            assert(d.listed_ok(k));
        }
        assert forall|x: usize|
            x < n.tables.len() && headed(n.tables[x as int].kind) implies #[trigger] n.order.contains(
            x,
        ) by {
            assert(d.order.contains(x));
        }
    }
}

/// The place that an entry had before the entry `from` was moved to `to`,
/// for the entry that stands at `i` afterwards.
pub open spec fn origin(i: int, from: int, to: int) -> int {
    if i == to {
        from
    } else {
        let j = if i < to {
            i
        } else {
            i - 1
        };
        if j < from {
            j
        } else {
            j + 1
        }
    }
}

/// The place that the entry at `s` has after the entry `from` was moved to
/// `to`.
pub open spec fn destination(s: int, from: int, to: int) -> int {
    if s == from {
        to
    } else {
        let j = if s < from {
            s
        } else {
            s - 1
        };
        if j < to {
            j
        } else {
            j + 1
        }
    }
}

/// Putting an entry without a line into a table leaves the lines of the
/// table as they are.
pub proof fn lemma_entries_text_insert(es: Seq<EntryView>, i: int, e: EntryView)
    requires
        0 <= i <= es.len(),
        !(e.item is Value),
    ensures
        entries_text(es.insert(i, e)) == entries_text(es),
    decreases es.len(),
{
    let after = es.insert(i, e);
    if i == es.len() {
        assert(after.drop_last() =~= es);
        assert(after.last() == e);
        assert(e.text() =~= Seq::<u8>::empty());
        assert(entries_text(after) =~= entries_text(es));
    } else {
        assert(after.drop_last() =~= es.drop_last().insert(i, e));
        assert(after.last() == es.last());
        lemma_entries_text_insert(es.drop_last(), i, e);
    }
}

/// Taking an entry without a line out of a table leaves the lines of the
/// table as they are.
pub proof fn lemma_entries_text_without(es: Seq<EntryView>, e: int)
    requires
        0 <= e < es.len(),
        !(es[e].item is Value),
    ensures
        entries_text(es.remove(e)) == entries_text(es),
    decreases es.len(),
{
    if e == es.len() - 1 {
        assert(es.remove(e) =~= es.drop_last());
        assert(es.last().text() =~= Seq::<u8>::empty());
        assert(entries_text(es) =~= entries_text(es.drop_last()));
    } else {
        let front = es.drop_last();
        assert(es.remove(e).drop_last() =~= front.remove(e));
        assert(es.remove(e).last() == es.last());
        lemma_entries_text_without(front, e);
    }
}

/// The path of a table does not change when an entry of a table is moved.
pub proof fn lemma_moved_path(d: DocumentView, t: int, from: int, to: int, c: int)
    requires
        d.wf(),
        d.moved(t, from, to).wf(),
        d.can_move(t, from, to),
        0 <= c < d.tables.len(),
    ensures
        d.moved(t, from, to).path_text(c) == d.path_text(c),
    decreases c,
{
    let n = d.moved(t, from, to);
    if c > 0 && d.tables[c].kind != TableKind::Detached {
        assert(d.placed(c));
        assert(n.placed(c));
        let p = d.tables[c].parent as int;
        let e = d.slot_of(c);
        let e2 = n.slot_of(c);
        assert(d.tables[p].entries[e].item.refers(c as usize));
        assert(n.tables[p].entries[e2].item.refers(c as usize));
        assert(n.table_ok(p));
        if p == t {
            let m = destination(e, from, to);
            assert(n.tables[p].entries[m] == d.tables[p].entries[e]);
            assert(n.tables[p].entries[m].item.refers(c as usize));
            assert(e2 == m);
        } else {
            assert(n.tables[p].entries[e].item.refers(c as usize));
            assert(e2 == e);
        }
        assert(n.key_of(c) == d.key_of(c));
        if p > 0 {
            lemma_moved_path(d, t, from, to, p);
        }
    }
}

/// Moving a table among the entries of its parent keeps the document in
/// order and leaves its text in the original order as it is.
pub proof fn lemma_moved(d: DocumentView, t: int, from: int, to: int)
    requires
        d.wf(),
        d.can_move(t, from, to),
    ensures
        d.moved(t, from, to).wf(),
        d.moved(t, from, to).original_text() == d.original_text(),
        forall|c: int|
            0 <= c < d.tables.len() ==> #[trigger] d.moved(t, from, to).table_text(c)
                == d.table_text(c),
{
    let n = d.moved(t, from, to);
    let old_es = d.tables[t].entries;
    let new_es = n.tables[t].entries;
    assert(d.table_ok(t));
    assert forall|i: int| 0 <= i < new_es.len() implies #[trigger] new_es[i] == old_es[origin(
        i,
        from,
        to,
    )] by {}
    assert forall|x: int, item: ItemView| 0 <= x < d.tables.len() && d.item_ok(x, item) implies n.item_ok(x, item) by {
        match item {
            ItemView::ArrayOfTables(v) => {
                assert forall|k: int| 0 <= k < v.len() implies n.element_ok(x, #[trigger] v[k]) by {
                    assert(d.element_ok(x, v[k]));
                }
            },
            _ => {},
        }
    }
    assert forall|c: int| 0 < c < n.tables.len() implies #[trigger] n.placed(c) by {
        assert(d.placed(c));
        if d.tables[c].kind == TableKind::Detached {
            assert(n.tables[c] == d.tables[c]);
        } else {
            let p = d.tables[c].parent as int;
            let e = d.slot_of(c);
            assert(d.tables[p].entries[e].item.refers(c as usize));
            if p == t {
                let m = destination(e, from, to);
                assert(new_es[m] == old_es[e]);
                assert(n.tables[p].entries[m].item.refers(c as usize));
            } else {
                assert(n.tables[p].entries[e].item.refers(c as usize));
            }
        }
    }
    assert forall|x: int| 0 <= x < n.tables.len() implies #[trigger] n.table_ok(x) by {
        assert(d.table_ok(x));
        if x == t {
            assert forall|a: int, b: int| 0 <= a < b < new_es.len() implies (
            #[trigger] new_es[a]).key.name != (#[trigger] new_es[b]).key.name by {
                let a0 = origin(a, from, to);
                let b0 = origin(b, from, to);
                if a0 < b0 {
                    assert(old_es[a0].key.name != old_es[b0].key.name);
                } else {
                    assert(old_es[b0].key.name != old_es[a0].key.name);
                }
            }
            assert forall|a: int, b: int, c: usize|
                0 <= a < new_es.len() && 0 <= b < new_es.len() && (
                #[trigger] new_es[a].item.refers(c)) && (
                #[trigger] new_es[b].item.refers(c)) implies a == b by {
                let a0 = origin(a, from, to);
                let b0 = origin(b, from, to);
                assert(old_es[a0].item.refers(c));
                assert(old_es[b0].item.refers(c));
            }
            assert forall|e: int| 0 <= e < new_es.len() implies n.item_ok(
                t,
                #[trigger] new_es[e].item,
            ) by {
                assert(d.item_ok(t, old_es[origin(e, from, to)].item));
            }
        } else {
            assert forall|e: int| 0 <= e < n.tables[x].entries.len() implies n.item_ok(
                x,
                #[trigger] n.tables[x].entries[e].item,
            ) by {
                assert(d.item_ok(x, d.tables[x].entries[e].item));
            }
        }
    }
    assert(n.order_ok()) by {
        assert forall|k: int| 0 <= k < n.order.len() implies #[trigger] n.listed_ok(k) by {
            assert(d.listed_ok(k));
        }
        assert forall|x: usize|
            x < n.tables.len() && headed(n.tables[x as int].kind) implies #[trigger] n.order.contains(
            x,
        ) by {
            assert(d.order.contains(x));
        }
    }
    assert(n.wf());
    assert(n.tables[t].body_text() == d.tables[t].body_text()) by {
        lemma_entries_text_without(old_es, from);
        lemma_entries_text_insert(old_es.remove(from), to, old_es[from]);
    }
    assert forall|c: int| 0 <= c < d.tables.len() implies #[trigger] n.table_text(c)
        == d.table_text(c) by {
        lemma_moved_path(d, t, from, to, c);
    }
    assert forall|k: int| 0 <= k < d.order.len() implies n.table_text(#[trigger] d.order[k] as int)
        == d.table_text(d.order[k] as int) by {
        assert(d.listed_ok(k));
    }
    lemma_text_in_order_kept(d, n, d.order);
}

} // verus!

//! Why building a document from lines keeps it in order and keeps the text
//! of the lines.

use crate::builder::{
    lemma_headers_kept, lemma_headers_pushed, lemma_text_in_order_push, normalized_text, opened,
    plain_key, quiet, stepped,
};
use crate::decor::DecorView;
use crate::document::DocumentView;
use crate::document_proofs::{
    lemma_made_explicit, lemma_start_wf, lemma_with_array_fits, lemma_with_element_fits,
    lemma_with_new_table_text, lemma_with_new_table_wf, lemma_with_table_fits,
    lemma_with_value_text, lemma_with_value_wf,
};
use crate::key::KeyView;
use crate::parser::lines::LineView;
use crate::parser::lossless::keys_in;
use crate::table::{holds_values, EntryView, ItemView, TableKind};
use vstd::prelude::*;

verus! {

/// The number of tables that a line may add: one for each key of a header.
pub open spec fn needs(line: LineView) -> nat {
    match line {
        LineView::KeyValue { .. } => 0,
        LineView::Header { path, .. } => path.len(),
    }
}

/// What a new table under a free name does: an implicit one writes nothing,
/// one with a header writes its header.
pub proof fn lemma_add_table(
    d: DocumentView,
    t: int,
    key: KeyView,
    kind: TableKind,
    decor: DecorView,
)
    requires
        d.wf(),
        0 <= t < d.tables.len(),
        d.tables.len() < usize::MAX,
        d.tables[t].kind != TableKind::Detached,
        kind == TableKind::Implicit || kind == TableKind::Header,
        !d.tables[t].has(key.name),
    ensures
        kind == TableKind::Implicit ==> quiet(d, d.with_table(t, plain_key(key), kind, decor)),
        kind == TableKind::Header ==> opened(
            d,
            d.with_table(t, plain_key(key), kind, decor),
            d.tables.len() as int,
            decor,
        ),
{
    let k = plain_key(key);
    let place = d.tables.len() as usize;
    let n = d.with_table(t, k, kind, decor);
    lemma_with_table_fits(d, t, k, kind, decor);
    let entries = d.tables[t].entries.push(EntryView { key: k, item: ItemView::Table(place) });
    lemma_with_new_table_wf(d, t, entries, kind, decor);
    lemma_with_new_table_text(d, t, entries, kind, decor);
    if kind == TableKind::Implicit {
        lemma_headers_kept(d, n);
    } else {
        lemma_headers_pushed(d, n, place as int);
        lemma_text_in_order_push(n, d.order, place);
    }
}

/// A step along the path of a header writes nothing and arrives at a table
/// of the document.
pub proof fn lemma_descend_step(d: DocumentView, t: int, key: KeyView)
    requires
        d.wf(),
        0 <= t < d.tables.len(),
        d.tables[t].kind != TableKind::Detached,
        d.tables.len() < usize::MAX,
    ensures
        d.descend(t, key) matches Ok((n, u)) ==> quiet(d, n) && 0 <= u < n.tables.len()
            && n.tables[u].kind != TableKind::Detached && n.tables.len() <= d.tables.len() + 1,
{
    assert(d.table_ok(t));
    match d.tables[t].find(key.name) {
        None => {
            lemma_add_table(d, t, key, TableKind::Implicit, DecorView::empty());
        },
        Some(e) => {
            assert(d.item_ok(t, d.tables[t].entries[e].item));
            match d.tables[t].entries[e].item {
                ItemView::ArrayOfTables(v) => {
                    assert(d.element_ok(t, v[v.len() - 1]));
                },
                _ => {},
            }
        },
    }
}

/// The steps along the path of a header write nothing and arrive at a table
/// of the document.
pub proof fn lemma_descend_path_steps(d: DocumentView, keys: Seq<KeyView>)
    requires
        d.wf(),
        d.tables.len() + keys.len() <= usize::MAX,
    ensures
        d.descend_path(0, keys) matches Ok((n, u)) ==> quiet(d, n) && 0 <= u < n.tables.len()
            && n.tables[u].kind != TableKind::Detached && n.tables.len() <= d.tables.len()
            + keys.len(),
    decreases keys.len(),
{
    if keys.len() > 0 {
        lemma_descend_path_steps(d, keys.drop_last());
        if let Ok((m, u)) = d.descend_path(0, keys.drop_last()) {
            lemma_descend_step(m, u, keys.last());
        }
    }
}

/// Opening a table writes its header behind everything else.
pub proof fn lemma_open_table_step(d: DocumentView, t: int, key: KeyView, decor: DecorView)
    requires
        d.wf(),
        0 <= t < d.tables.len(),
        d.tables[t].kind != TableKind::Detached,
        d.tables.len() < usize::MAX,
    ensures
        d.open_table(t, key, decor) matches Ok((n, u)) ==> opened(d, n, u, decor)
            && n.tables.len() <= d.tables.len() + 1,
{
    assert(d.table_ok(t));
    match d.tables[t].find(key.name) {
        None => {
            lemma_add_table(d, t, key, TableKind::Header, decor);
        },
        Some(e) => {
            assert(d.item_ok(t, d.tables[t].entries[e].item));
            match d.tables[t].entries[e].item {
                ItemView::Table(c) => {
                    if d.tables[c as int].kind == TableKind::Implicit {
                        let n = d.made_explicit(c as int, decor);
                        lemma_made_explicit(d, c as int, decor);
                        lemma_headers_pushed(d, n, c as int);
                        lemma_text_in_order_push(n, d.order, c);
                    }
                },
                _ => {},
            }
        },
    }
}

/// Opening a table of an array writes its header behind everything else.
pub proof fn lemma_open_array_step(d: DocumentView, t: int, key: KeyView, decor: DecorView)
    requires
        d.wf(),
        0 <= t < d.tables.len(),
        d.tables[t].kind != TableKind::Detached,
        d.tables.len() < usize::MAX,
    ensures
        d.open_array(t, key, decor) matches Ok((n, u)) ==> opened(d, n, u, decor)
            && n.tables.len() <= d.tables.len() + 1,
{
    assert(d.table_ok(t));
    let place = d.tables.len() as usize;
    let kind = TableKind::ArrayElement;
    match d.tables[t].find(key.name) {
        None => {
            let k = plain_key(key);
            let n = d.with_array(t, k, decor);
            lemma_with_array_fits(d, t, k, decor);
            let entries = d.tables[t].entries.push(
                EntryView { key: k, item: ItemView::ArrayOfTables(seq![place]) },
            );
            lemma_with_new_table_wf(d, t, entries, kind, decor);
            lemma_with_new_table_text(d, t, entries, kind, decor);
            lemma_headers_pushed(d, n, place as int);
            lemma_text_in_order_push(n, d.order, place);
        },
        Some(e) => {
            match d.tables[t].entries[e].item {
                ItemView::ArrayOfTables(v) => {
                    let n = d.with_element(t, e, decor);
                    lemma_with_element_fits(d, t, e, decor);
                    let entry = d.tables[t].entries[e];
                    let entries = d.tables[t].entries.update(
                        e,
                        EntryView { key: entry.key, item: ItemView::ArrayOfTables(v.push(place)) },
                    );
                    lemma_with_new_table_wf(d, t, entries, kind, decor);
                    lemma_with_new_table_text(d, t, entries, kind, decor);
                    lemma_headers_pushed(d, n, place as int);
                    lemma_text_in_order_push(n, d.order, place);
                },
                _ => {},
            }
        },
    }
}

/// A line writes its text behind the text that was there.
pub proof fn lemma_apply_step(d: DocumentView, current: int, line: LineView)
    requires
        d.wf(),
        0 <= current < d.tables.len(),
        holds_values(d.tables[current].kind),
        d.order.last() == current,
        line.wf(),
        d.tables.len() + needs(line) <= usize::MAX,
    ensures
        d.apply(current, line) matches Ok((n, u)) ==> stepped(d, n, line, u) && n.tables.len()
            <= d.tables.len() + needs(line),
{
    match line {
        LineView::KeyValue { key, value } => {
            if !d.tables[current].has(key.name) {
                lemma_with_value_wf(d, current, key, value);
                lemma_with_value_text(d, current, key, value);
                lemma_headers_kept(d, d.with_value(current, key, value));
            }
        },
        LineView::Header { decor, path, array } => {
            lemma_descend_path_steps(d, path.drop_last());
            if let Ok((m, t)) = d.descend_path(0, path.drop_last()) {
                if array {
                    lemma_open_array_step(m, t, path.last(), decor);
                } else {
                    lemma_open_table_step(m, t, path.last(), decor);
                }
            }
        },
    }
}

/// The document that lines make is in order, and the text of its tables in
/// the order of the headers is the text of the lines, each header written as
/// the document writes it.
pub proof fn lemma_apply_all_steps(trailing: Seq<u8>, lines: Seq<LineView>)
    requires
        forall|i: int| 0 <= i < lines.len() ==> (#[trigger] lines[i]).wf(),
        1 + keys_in(lines) <= usize::MAX,
    ensures
        DocumentView::start(trailing).apply_all(0, lines) matches Ok((n, u)) ==> {
            &&& n.wf()
            &&& n.tables.len() <= 1 + keys_in(lines)
            &&& 0 <= u < n.tables.len()
            &&& holds_values(n.tables[u].kind)
            &&& n.order.last() == u
            &&& n.trailing == trailing
            &&& n.text_in_order(n.order) == normalized_text(lines, n.headers())
        },
    decreases lines.len(),
{
    let first = DocumentView::start(trailing);
    lemma_start_wf(trailing);
    if lines.len() > 0 {
        let front = lines.drop_last();
        assert forall|i: int| 0 <= i < front.len() implies (#[trigger] front[i]).wf() by {
            assert(lines[i].wf());
        }
        assert(keys_in(lines) == keys_in(front) + needs(lines.last()));
        lemma_apply_all_steps(trailing, front);
        if let Ok((m, t)) = first.apply_all(0, front) {
            assert(lines[lines.len() - 1].wf());
            lemma_apply_step(m, t, lines.last());
            if let Ok((n, u)) = m.apply(t, lines.last()) {
                match lines.last() {
                    LineView::KeyValue { .. } => {},
                    LineView::Header { decor, .. } => {
                        assert(n.headers().drop_last() =~= m.headers());
                    },
                }
            }
        }
    }
}

} // verus!

//! What holds of the library as a whole.

use crate::array::element_decor;
use crate::builder::lemma_normalized_exact;
use crate::builder_laws::lemma_apply_all_steps;
use crate::parser::document::{headers_of, spec_parse};
use crate::parser::lines::{render_lines, spec_lines};
use crate::parser::lossless::{lemma_keys_fit, lemma_lines_lossless};
use crate::document::DocumentView;
use crate::document_proofs::{lemma_moved, lemma_swapped};
use crate::value::{ArrayView, InlineTableView, ValueView};
use crate::writer::lemma_written_text;
use vstd::prelude::*;

verus! {

/// Reading a text and writing the document back gives the text: in the
/// original order wherever the headers are written in the text as the
/// document writes them, and in canonical order too where they stand in that
/// order.
pub proof fn law_round_trip(text: Seq<u8>)
    requires
        text.len() < usize::MAX,
        spec_parse(text) is Ok,
        spec_parse(text)->Ok_0.headers() == headers_of(text),
    ensures
        spec_parse(text)->Ok_0.wf(),
        spec_parse(text)->Ok_0.original_text() == text,
        spec_parse(text)->Ok_0.in_canonical_order() ==> spec_parse(text)->Ok_0.canonical_text()
            == text,
{
    let doc = spec_parse(text)->Ok_0;
    assert(text.subrange(0, 0) =~= Seq::<u8>::empty());
    lemma_lines_lossless(text, 0, Seq::empty());
    let found = spec_lines(text, 0, Seq::empty())->Ok_0;
    let lines = found.0.0;
    let trailing = found.0.1;
    lemma_keys_fit(lines);
    assert(render_lines(lines).len() <= text.len()) by {
        assert((render_lines(lines) + trailing).len() == text.len());
    }
    lemma_apply_all_steps(trailing, lines);
    lemma_normalized_exact(lines);
    if doc.in_canonical_order() {
        law_canonical_is_original(doc);
    }
}

/// Where the headers of a document were written in canonical order, the two
/// ways of writing it give the same text.
pub proof fn law_canonical_is_original(d: DocumentView)
    requires
        d.in_canonical_order(),
    ensures
        d.canonical_text() == d.original_text(),
{
    lemma_written_text(d, d.canonical_order());
}

/// Whatever values are pushed onto an array of one kind, in whatever order,
/// the array stays of one kind: it holds the elements it had and those of the
/// pushed values that were accepted, and no more than were pushed.
pub proof fn law_pushes_keep_one_kind(a: ArrayView, vs: Seq<ValueView>)
    requires
        a.homogeneous(),
    ensures
        a.push_all(vs).homogeneous(),
        a.values.len() <= a.push_all(vs).values.len() <= a.values.len() + vs.len(),
        a.push_all(vs).values.subrange(0, a.values.len() as int) == a.values,
    decreases vs.len(),
{
    if vs.len() == 0 {
        assert(a.values.subrange(0, a.values.len() as int) =~= a.values);
    } else {
        law_pushes_keep_one_kind(a, vs.drop_last());
        let before = a.push_all(vs.drop_last());
        let after = a.push_all(vs);
        if before.accepts(vs.last()) {
            assert forall|i: int| 0 <= i < after.values.len() implies (
            #[trigger] after.values[i]).kind() == after.values[0].kind() by {
                if i < before.values.len() {
                    assert(before.values[i].kind() == before.values[0].kind());
                }
            }
        }
        assert(after.values.subrange(0, a.values.len() as int) =~= before.values.subrange(
            0,
            a.values.len() as int,
        ));
    }
}

/// Pushing values of one kind onto an empty array gives an array that holds
/// exactly these values, in their order.
pub proof fn law_pushes_of_one_kind(vs: Seq<ValueView>)
    requires
        forall|i: int| 0 <= i < vs.len() ==> (#[trigger] vs[i]).kind() == vs[0].kind(),
    ensures
        ArrayView::empty().push_all(vs).values == vs,
    decreases vs.len(),
{
    if vs.len() == 0 {
        assert(ArrayView::empty().values =~= vs);
    } else {
        let front = vs.drop_last();
        assert forall|i: int| 0 <= i < front.len() implies (#[trigger] front[i]).kind()
            == front[0].kind() by {
            assert(vs[i].kind() == vs[0].kind());
            assert(vs[0].kind() == vs[0].kind());
        }
        law_pushes_of_one_kind(front);
        let before = ArrayView::empty().push_all(front);
        assert(before.accepts(vs.last())) by {
            if front.len() > 0 {
                assert(vs[vs.len() - 1].kind() == vs[0].kind());
            }
        }
        assert(before.push(vs.last()).values =~= vs);
    }
}

/// Decorating a value twice is decorating it with the second decoration.
pub proof fn law_decorated_twice(v: ValueView, first: crate::decor::DecorView, second: crate::decor::DecorView)
    ensures
        v.decorated(first).decorated(second) == v.decorated(second),
{
}

/// Laying out an array twice gives what the second layout gives alone; so a
/// layout applied twice gives the same array, and the same text, as applied
/// once.
pub proof fn law_array_format_twice(a: ArrayView, first: bool, second: bool)
    ensures
        a.formatted(first).formatted(second) == a.formatted(second),
        a.formatted(second).formatted(second).render() == a.formatted(second).render(),
{
    let once = a.formatted(second);
    let twice = a.formatted(first).formatted(second);
    assert forall|i: int| 0 <= i < once.values.len() implies twice.values[i] == once.values[i] by {
        law_decorated_twice(
            a.values[i],
            element_decor(i == 0, first),
            element_decor(i == 0, second),
        );
    }
    assert(twice.values =~= once.values);
    let again = once.formatted(second);
    assert forall|i: int| 0 <= i < once.values.len() implies again.values[i] == once.values[i] by {
        law_decorated_twice(
            a.values[i],
            element_decor(i == 0, second),
            element_decor(i == 0, second),
        );
    }
    assert(again.values =~= once.values);
}

/// Laying out an inline table twice gives the same table, and the same text,
/// as laying it out once.
pub proof fn law_inline_table_format_twice(t: InlineTableView)
    ensures
        t.formatted().formatted() == t.formatted(),
        t.formatted().formatted().render() == t.formatted().render(),
{
    let once = t.formatted();
    let twice = once.formatted();
    assert forall|i: int| 0 <= i < once.entries.len() implies twice.entries[i]
        == once.entries[i] by {
        law_decorated_twice(
            t.entries[i].value,
            crate::inline_table::entry_value_decor(i == t.entries.len() - 1),
            crate::inline_table::entry_value_decor(i == t.entries.len() - 1),
        );
    }
    assert(twice.entries =~= once.entries);
}

/// Letting two sibling tables change places and change back gives the
/// document that was there.
pub proof fn law_swap_back(d: DocumentView, t: int, i: int, j: int)
    requires
        d.can_swap(t, i, j),
    ensures
        d.swapped(t, i, j).can_swap(t, i, j),
        d.swapped(t, i, j).swapped(t, i, j) == d,
{
    let n = d.swapped(t, i, j);
    let back = n.swapped(t, i, j);
    assert(back.tables[t].entries =~= d.tables[t].entries);
    assert(back.tables =~= d.tables);
}

/// Letting two sibling tables change places changes the order of the two
/// entries in their parent and nothing else: every table keeps its text, and
/// the text of the document in the original order stays as it is.
pub proof fn law_swap_keeps_text(d: DocumentView, t: int, i: int, j: int)
    requires
        d.wf(),
        d.can_swap(t, i, j),
    ensures
        d.swapped(t, i, j).wf(),
        d.swapped(t, i, j).order == d.order,
        d.swapped(t, i, j).tables.len() == d.tables.len(),
        forall|c: int|
            0 <= c < d.tables.len() && c != t ==> #[trigger] d.swapped(t, i, j).tables[c]
                == d.tables[c],
        forall|c: int|
            0 <= c < d.tables.len() ==> #[trigger] d.swapped(t, i, j).table_text(c) == d.table_text(
                c,
            ),
        d.swapped(t, i, j).original_text() == d.original_text(),
{
    lemma_swapped(d, t, i, j);
}

/// Moving a table among the entries of its parent and moving it back gives
/// the document that was there.
pub proof fn law_move_back(d: DocumentView, t: int, from: int, to: int)
    requires
        d.can_move(t, from, to),
    ensures
        d.moved(t, from, to).can_move(t, to, from),
        d.moved(t, from, to).moved(t, to, from) == d,
{
    let n = d.moved(t, from, to);
    let back = n.moved(t, to, from);
    assert(n.tables[t].entries[to] == d.tables[t].entries[from]);
    assert(back.tables[t].entries =~= d.tables[t].entries);
    assert(back.tables =~= d.tables);
}

/// Moving a table among the entries of its parent changes the order of the
/// entries and nothing else: every table keeps its text, and the text of the
/// document in the original order stays as it is.
pub proof fn law_move_keeps_text(d: DocumentView, t: int, from: int, to: int)
    requires
        d.wf(),
        d.can_move(t, from, to),
    ensures
        d.moved(t, from, to).wf(),
        d.moved(t, from, to).order == d.order,
        d.moved(t, from, to).tables.len() == d.tables.len(),
        forall|c: int|
            0 <= c < d.tables.len() && c != t ==> #[trigger] d.moved(t, from, to).tables[c]
                == d.tables[c],
        forall|c: int|
            0 <= c < d.tables.len() ==> #[trigger] d.moved(t, from, to).table_text(c)
                == d.table_text(c),
        d.moved(t, from, to).original_text() == d.original_text(),
{
    lemma_moved(d, t, from, to);
}

} // verus!

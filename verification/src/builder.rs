//! From the lines of a text to the tree: each header opens a table, each
//! `key = value` line goes into the table that was opened last.

use crate::decor::{Decor, DecorView};
use crate::document::{Document, DocumentView};
use crate::document_proofs::{
    lemma_made_explicit, lemma_start_wf, lemma_with_array_fits, lemma_with_element_fits,
    lemma_with_new_table_text, lemma_with_new_table_wf, lemma_with_table_fits,
    lemma_with_value_text, lemma_with_value_wf,
};
use crate::errors::{CustomError, CustomErrorView};
use crate::key::{Key, KeyView};
use crate::parser::lines::{keys_view, lines_view, render_lines, Line, LineView};
use crate::table::{headed, holds_values, EntryView, Item, ItemView, TableKind};
use crate::text::copy_bytes;
use vstd::prelude::*;

verus! {

/// What a step of the construction yields: the document after it and the
/// place of the table it arrived at, or the rule it broke.
pub type Step = Result<(DocumentView, int), CustomErrorView>;

/// The key as a table keeps it for a child table: as it was written first,
/// without the whitespace around it.
pub open spec fn plain_key(k: KeyView) -> KeyView {
    KeyView { decor: DecorView::empty(), ..k }
}

/// The name is already bound to something that cannot be opened.
pub open spec fn duplicate(name: Seq<u8>) -> Step {
    Err(CustomErrorView::DuplicateKey { key: name })
}

impl DocumentView {
    /// One step along the path of a header, from the table at `t` through
    /// `key`: into the table bound to it, into the last table of the array
    /// bound to it, or into a new implicit table where the name is free. A
    /// value stands in the way.
    pub open spec fn descend(self, t: int, key: KeyView) -> Step {
        match self.tables[t].find(key.name) {
            None => Ok(
                (
                    self.with_table(t, plain_key(key), TableKind::Implicit, DecorView::empty()),
                    self.tables.len() as int,
                ),
            ),
            Some(e) => match self.tables[t].entries[e].item {
                ItemView::Value(_) => duplicate(key.name),
                ItemView::Table(c) => Ok((self, c as int)),
                ItemView::ArrayOfTables(v) => Ok((self, v.last() as int)),
            },
        }
    }

    /// The steps through all of `keys`, from the table at `t`.
    pub open spec fn descend_path(self, t: int, keys: Seq<KeyView>) -> Step
        decreases keys.len(),
    {
        if keys.len() == 0 {
            Ok((self, t))
        } else {
            match self.descend_path(t, keys.drop_last()) {
                Err(e) => Err(e),
                Ok((d, u)) => d.descend(u, keys.last()),
            }
        }
    }

    /// Opens the table `[..key]` in the table at `t`: a new table where the
    /// name is free, the implicit table that has the name, and nothing else.
    pub open spec fn open_table(self, t: int, key: KeyView, decor: DecorView) -> Step {
        match self.tables[t].find(key.name) {
            None => Ok(
                (
                    self.with_table(t, plain_key(key), TableKind::Header, decor),
                    self.tables.len() as int,
                ),
            ),
            Some(e) => match self.tables[t].entries[e].item {
                ItemView::Table(c) => if self.tables[c as int].kind == TableKind::Implicit {
                    Ok((self.made_explicit(c as int, decor), c as int))
                } else {
                    duplicate(key.name)
                },
                _ => duplicate(key.name),
            },
        }
    }

    /// Opens a table `[[..key]]` in the table at `t`: the first of a new
    /// array where the name is free, one more of the array that has the name,
    /// and nothing else.
    pub open spec fn open_array(self, t: int, key: KeyView, decor: DecorView) -> Step {
        match self.tables[t].find(key.name) {
            None => Ok((self.with_array(t, plain_key(key), decor), self.tables.len() as int)),
            Some(e) => match self.tables[t].entries[e].item {
                ItemView::ArrayOfTables(_) => Ok(
                    (self.with_element(t, e, decor), self.tables.len() as int),
                ),
                _ => duplicate(key.name),
            },
        }
    }

    /// What a line does to the document whose table at `current` was opened
    /// last.
    pub open spec fn apply(self, current: int, line: LineView) -> Step {
        match line {
            LineView::KeyValue { key, value } => if self.tables[current].has(key.name) {
                duplicate(key.name)
            } else {
                Ok((self.with_value(current, key, value), current))
            },
            LineView::Header { decor, path, array } => match self.descend_path(
                0,
                path.drop_last(),
            ) {
                Err(e) => Err(e),
                Ok((d, t)) => if array {
                    d.open_array(t, path.last(), decor)
                } else {
                    d.open_table(t, path.last(), decor)
                },
            },
        }
    }

    /// What the lines do, one after the other.
    pub open spec fn apply_all(self, current: int, lines: Seq<LineView>) -> Step
        decreases lines.len(),
    {
        if lines.len() == 0 {
            Ok((self, current))
        } else {
            match self.apply_all(current, lines.drop_last()) {
                Err(e) => Err(e),
                Ok((d, t)) => d.apply(t, lines.last()),
            }
        }
    }
}

/// The document that the lines make, with `trailing` behind the last line.
pub open spec fn spec_build(lines: Seq<LineView>, trailing: Seq<u8>) -> Result<
    DocumentView,
    CustomErrorView,
> {
    match DocumentView::start(trailing).apply_all(0, lines) {
        Err(e) => Err(e),
        Ok((d, _)) => Ok(d),
    }
}

/// The headers among the lines as they are written, from the first bracket
/// to the last, in order.
pub open spec fn written_headers(lines: Seq<LineView>) -> Seq<Seq<u8>>
    decreases lines.len(),
{
    if lines.len() == 0 {
        Seq::empty()
    } else if lines.last() is Header {
        written_headers(lines.drop_last()).push(lines.last().header_text())
    } else {
        written_headers(lines.drop_last())
    }
}

/// The text of the lines where each header is written as `headers` has it.
pub open spec fn normalized_text(lines: Seq<LineView>, headers: Seq<Seq<u8>>) -> Seq<u8>
    decreases lines.len(),
{
    if lines.len() == 0 {
        Seq::empty()
    } else {
        match lines.last() {
            LineView::KeyValue { .. } => normalized_text(lines.drop_last(), headers)
                + lines.last().render(),
            LineView::Header { decor, .. } => normalized_text(
                lines.drop_last(),
                headers.drop_last(),
            ) + (decor.prefix + headers.last() + decor.suffix),
        }
    }
}

/// Where the headers are written as the lines have them, the text is that of
/// the lines.
pub proof fn lemma_normalized_exact(lines: Seq<LineView>)
    ensures
        normalized_text(lines, written_headers(lines)) == render_lines(lines),
    decreases lines.len(),
{
    if lines.len() > 0 {
        lemma_normalized_exact(lines.drop_last());
        let hs = written_headers(lines);
        match lines.last() {
            LineView::KeyValue { .. } => {},
            LineView::Header { decor, .. } => {
                assert(hs.drop_last() =~= written_headers(lines.drop_last()));
                assert(hs.last() == lines.last().header_text());
            },
        }
    }
}

/// Once a step along a path has failed, the steps through a longer path fail
/// in the same way.
pub proof fn lemma_descend_stops(d: DocumentView, keys: Seq<KeyView>, i: int, count: int)
    requires
        0 <= i <= count <= keys.len(),
        d.descend_path(0, keys.subrange(0, i)) is Err,
    ensures
        d.descend_path(0, keys.subrange(0, count)) == d.descend_path(0, keys.subrange(0, i)),
    decreases count - i,
{
    if i < count {
        lemma_descend_stops(d, keys, i, count - 1);
        assert(keys.subrange(0, count).drop_last() =~= keys.subrange(0, count - 1));
    }
}

/// Once a line has been refused, the lines behind it change nothing.
pub proof fn lemma_apply_stops(d: DocumentView, lines: Seq<LineView>, i: int, count: int)
    requires
        0 <= i <= count <= lines.len(),
        d.apply_all(0, lines.subrange(0, i)) is Err,
    ensures
        d.apply_all(0, lines.subrange(0, count)) == d.apply_all(0, lines.subrange(0, i)),
    decreases count - i,
{
    if i < count {
        lemma_apply_stops(d, lines, i, count - 1);
        assert(lines.subrange(0, count).drop_last() =~= lines.subrange(0, count - 1));
    }
}

/// The step from `before` to `after` wrote nothing: the headers and their
/// order are the same, and so is the text.
pub open spec fn quiet(before: DocumentView, after: DocumentView) -> bool {
    &&& after.wf()
    &&& after.order == before.order
    &&& after.trailing == before.trailing
    &&& after.tables.len() >= before.tables.len()
    &&& after.text_in_order(after.order) == before.text_in_order(before.order)
    &&& after.headers() == before.headers()
}

/// The step from `before` to `after` wrote the header of the table at `u`,
/// with `decor` around it, behind everything else.
pub open spec fn opened(before: DocumentView, after: DocumentView, u: int, decor: DecorView) -> bool {
    &&& after.wf()
    &&& 0 < u < after.tables.len()
    &&& headed(after.tables[u].kind)
    &&& after.order == before.order.push(u as usize)
    &&& after.trailing == before.trailing
    &&& after.text_in_order(after.order) == before.text_in_order(before.order) + (decor.prefix
        + after.header_text(u) + decor.suffix)
    &&& after.headers() == before.headers().push(after.header_text(u))
}

/// The headers stay when every table that was there keeps its header.
pub proof fn lemma_headers_kept(before: DocumentView, after: DocumentView)
    requires
        before.wf(),
        after.order == before.order,
        forall|x: int|
            0 <= x < before.tables.len() ==> #[trigger] after.header_text(x) == before.header_text(
                x,
            ),
    ensures
        after.headers() == before.headers(),
{
    assert forall|h: int| 0 <= h < before.order.len() - 1 implies after.headers()[h]
        == before.headers()[h] by {
        assert(before.listed_ok(h + 1));
    }
    assert(after.headers() =~= before.headers());
}

/// One more header comes behind the others when every table that was there
/// keeps its header.
pub proof fn lemma_headers_pushed(before: DocumentView, after: DocumentView, u: int)
    requires
        before.wf(),
        after.order == before.order.push(u as usize),
        0 <= u <= usize::MAX,
        forall|x: int|
            0 <= x < before.tables.len() ==> #[trigger] after.header_text(x) == before.header_text(
                x,
            ),
    ensures
        after.headers() == before.headers().push(after.header_text(u)),
{
    let want = before.headers().push(after.header_text(u));
    assert forall|h: int| 0 <= h < after.order.len() - 1 implies after.headers()[h] == want[h] by {
        if h < before.order.len() - 1 {
            assert(before.listed_ok(h + 1));
        }
    }
    assert(after.headers() =~= want);
}

/// The text in a longer order is the text in the shorter one and the text of
/// the last table.
pub proof fn lemma_text_in_order_push(d: DocumentView, order: Seq<usize>, u: usize)
    ensures
        d.text_in_order(order.push(u)) == d.text_in_order(order) + d.table_text(u as int),
{
    assert(order.push(u).drop_last() =~= order);
}

impl Document {
    /// A copy of `key` without the whitespace around it.
    fn plain_copy(key: &Key) -> (k: Key)
        ensures
            k@ == plain_key(key@),
    {
        Key {
            decor: Decor::empty(),
            raw: copy_bytes(key.raw.as_slice()),
            name: copy_bytes(key.name.as_slice()),
            style: key.style,
        }
    }

    /// Adds a table under a free name of the table at `t`; an implicit one
    /// writes nothing, one with a header writes its header.
    fn add_table(&mut self, t: usize, key: &Key, kind: TableKind, decor: Decor) -> (place: usize)
        requires
            old(self)@.wf(),
            t < old(self)@.tables.len(),
            old(self)@.tables[t as int].kind != TableKind::Detached,
            kind == TableKind::Implicit || kind == TableKind::Header,
            !old(self)@.tables[t as int].has(key@.name),
        ensures
            place == old(self)@.tables.len(),
            final(self)@ == old(self)@.with_table(t as int, plain_key(key@), kind, decor@),
            kind == TableKind::Implicit ==> quiet(old(self)@, final(self)@),
            kind == TableKind::Header ==> opened(old(self)@, final(self)@, place as int, decor@),
    {
        let place = self.push_table(t, Self::plain_copy(key), kind, decor);
        let now = self.tables.len();
        proof {
            let d = old(self)@;
            let n = self@;
            assert(n.tables.len() == now);
            assert(d.tables.len() + 1 == n.tables.len());
            let k = plain_key(key@);
            lemma_with_table_fits(d, t as int, k, kind, decor@);
            let entries = d.tables[t as int].entries.push(
                EntryView { key: k, item: ItemView::Table(place) },
            );
            lemma_with_new_table_wf(d, t as int, entries, kind, decor@);
            lemma_with_new_table_text(d, t as int, entries, kind, decor@);
            if kind == TableKind::Implicit {
                lemma_headers_kept(d, n);
            } else {
                lemma_headers_pushed(d, n, place as int);
                lemma_text_in_order_push(n, d.order, place);
            }
        }
        place
    }

    /// Takes one step along the path of a header.
    pub(crate) fn descend(&mut self, t: usize, key: &Key) -> (r: Result<usize, CustomError>)
        requires
            old(self)@.wf(),
            t < old(self)@.tables.len(),
            old(self)@.tables[t as int].kind != TableKind::Detached,
        ensures
            match r {
                Ok(u) => old(self)@.descend(t as int, key@) == Ok::<
                    (DocumentView, int),
                    CustomErrorView,
                >((final(self)@, u as int)) && u < final(self)@.tables.len()
                    && final(self)@.tables[u as int].kind != TableKind::Detached && quiet(
                    old(self)@,
                    final(self)@,
                ),
                Err(e) => old(self)@.descend(t as int, key@) == Err::<
                    (DocumentView, int),
                    CustomErrorView,
                >(e@) && final(self)@ == old(self)@,
            },
    {
        proof {
            assert(self@.table_ok(t as int));
        }
        match self.tables[t].find(key.name.as_slice()) {
            None => {
                let place = self.add_table(t, key, TableKind::Implicit, Decor::empty());
                Ok(place)
            },
            Some(e) => {
                proof {
                    assert(self@.item_ok(t as int, self@.tables[t as int].entries[e as int].item));
                }
                match &self.tables[t].entries[e].item {
                    Item::Value(_) => Err(
                        CustomError::DuplicateKey { key: copy_bytes(key.name.as_slice()) },
                    ),
                    Item::Table(c) => Ok(*c),
                    Item::ArrayOfTables(v) => {
                        proof {
                            assert(self@.element_ok(t as int, v@[v@.len() - 1]));
                        }
                        Ok(v[v.len() - 1])
                    },
                }
            },
        }
    }

    /// Takes the steps through the first `count` keys of `path`, from the
    /// root. Tables made on the way stay where a later step fails.
    pub(crate) fn descend_path(&mut self, path: &Vec<Key>, count: usize) -> (r: Result<usize, CustomError>)
        requires
            old(self)@.wf(),
            count <= path@.len(),
        ensures
            match r {
                Ok(u) => old(self)@.descend_path(0, keys_view(path@).subrange(0, count as int))
                    == Ok::<(DocumentView, int), CustomErrorView>((final(self)@, u as int)) && u
                    < final(self)@.tables.len() && final(self)@.tables[u as int].kind
                    != TableKind::Detached && quiet(old(self)@, final(self)@),
                Err(e) => old(self)@.descend_path(0, keys_view(path@).subrange(0, count as int))
                    == Err::<(DocumentView, int), CustomErrorView>(e@),
            },
    {
        let ghost start = self@;
        let ghost keys = keys_view(path@);
        let mut t: usize = 0;
        let mut i: usize = 0;
        while i < count
            invariant
                0 <= i <= count <= path@.len(),
                keys == keys_view(path@),
                start == old(self)@,
                start.descend_path(0, keys.subrange(0, i as int)) == Ok::<
                    (DocumentView, int),
                    CustomErrorView,
                >((self@, t as int)),
                t < self@.tables.len(),
                self@.tables[t as int].kind != TableKind::Detached,
                quiet(start, self@),
            decreases count - i,
        {
            let ghost here = self@;
            proof {
                let next = keys.subrange(0, i as int + 1);
                assert(next.drop_last() =~= keys.subrange(0, i as int));
                assert(next.last() == path@[i as int]@);
                assert(start.descend_path(0, next) == here.descend(t as int, path@[i as int]@));
            }
            match self.descend(t, &path[i]) {
                Ok(u) => {
                    t = u;
                },
                Err(e) => {
                    proof {
                        lemma_descend_stops(start, keys, i as int + 1, count as int);
                    }
                    return Err(e);
                },
            }
            i += 1;
        }
        Ok(t)
    }

    /// Opens the table `[..key]` in the table at `t`.
    pub fn open_table(&mut self, t: usize, key: &Key, decor: Decor) -> (r: Result<
        usize,
        CustomError,
    >)
        requires
            old(self)@.wf(),
            t < old(self)@.tables.len(),
            old(self)@.tables[t as int].kind != TableKind::Detached,
        ensures
            match r {
                Ok(u) => old(self)@.open_table(t as int, key@, decor@) == Ok::<
                    (DocumentView, int),
                    CustomErrorView,
                >((final(self)@, u as int)) && opened(old(self)@, final(self)@, u as int, decor@),
                Err(e) => old(self)@.open_table(t as int, key@, decor@) == Err::<
                    (DocumentView, int),
                    CustomErrorView,
                >(e@) && final(self)@ == old(self)@,
            },
    {
        proof {
            assert(self@.table_ok(t as int));
        }
        match self.tables[t].find(key.name.as_slice()) {
            None => {
                let place = self.add_table(t, key, TableKind::Header, decor);
                Ok(place)
            },
            Some(e) => {
                proof {
                    assert(self@.item_ok(t as int, self@.tables[t as int].entries[e as int].item));
                }
                let child: Option<usize> = match &self.tables[t].entries[e].item {
                    Item::Table(c) => Some(*c),
                    _ => None,
                };
                match child {
                    Some(c) => {
                        match self.tables[c].kind {
                            TableKind::Implicit => {
                                self.make_explicit(c, decor);
                                proof {
                                    let d = old(self)@;
                                    let n = self@;
                                    lemma_made_explicit(d, c as int, decor@);
                                    lemma_headers_pushed(d, n, c as int);
                                    lemma_text_in_order_push(n, d.order, c);
                                }
                                Ok(c)
                            },
                            _ => Err(
                                CustomError::DuplicateKey { key: copy_bytes(key.name.as_slice()) },
                            ),
                        }
                    },
                    None => Err(CustomError::DuplicateKey { key: copy_bytes(key.name.as_slice()) }),
                }
            },
        }
    }

    /// Opens a table `[[..key]]` in the table at `t`.
    pub fn open_array(&mut self, t: usize, key: &Key, decor: Decor) -> (r: Result<
        usize,
        CustomError,
    >)
        requires
            old(self)@.wf(),
            t < old(self)@.tables.len(),
            old(self)@.tables[t as int].kind != TableKind::Detached,
        ensures
            match r {
                Ok(u) => old(self)@.open_array(t as int, key@, decor@) == Ok::<
                    (DocumentView, int),
                    CustomErrorView,
                >((final(self)@, u as int)) && opened(old(self)@, final(self)@, u as int, decor@),
                Err(e) => old(self)@.open_array(t as int, key@, decor@) == Err::<
                    (DocumentView, int),
                    CustomErrorView,
                >(e@) && final(self)@ == old(self)@,
            },
    {
        proof {
            assert(self@.table_ok(t as int));
        }
        match self.tables[t].find(key.name.as_slice()) {
            None => {
                let place = self.push_array(t, Self::plain_copy(key), decor);
                let now = self.tables.len();
                proof {
                    let d = old(self)@;
                    let n = self@;
                    assert(n.tables.len() == now);
                    assert(d.tables.len() + 1 == n.tables.len());
                    let k = plain_key(key@);
                    lemma_with_array_fits(d, t as int, k, decor@);
                    let entries = d.tables[t as int].entries.push(
                        EntryView { key: k, item: ItemView::ArrayOfTables(seq![place]) },
                    );
                    lemma_with_new_table_wf(d, t as int, entries, TableKind::ArrayElement, decor@);
                    lemma_with_new_table_text(d, t as int, entries, TableKind::ArrayElement, decor@);
                    lemma_headers_pushed(d, n, place as int);
                    lemma_text_in_order_push(n, d.order, place);
                }
                Ok(place)
            },
            Some(e) => {
                let is_array = match &self.tables[t].entries[e].item {
                    Item::ArrayOfTables(_) => true,
                    _ => false,
                };
                if is_array {
                    let place = self.push_element(t, e, decor);
                    let now = self.tables.len();
                    proof {
                        let d = old(self)@;
                        let n = self@;
                        assert(n.tables.len() == now);
                        assert(d.tables.len() + 1 == n.tables.len());
                        lemma_with_element_fits(d, t as int, e as int, decor@);
                        let entry = d.tables[t as int].entries[e as int];
                        let entries = d.tables[t as int].entries.update(
                            e as int,
                            EntryView {
                                key: entry.key,
                                item: ItemView::ArrayOfTables(
                                    entry.item->ArrayOfTables_0.push(place),
                                ),
                            },
                        );
                        lemma_with_new_table_wf(
                            d,
                            t as int,
                            entries,
                            TableKind::ArrayElement,
                            decor@,
                        );
                        lemma_with_new_table_text(
                            d,
                            t as int,
                            entries,
                            TableKind::ArrayElement,
                            decor@,
                        );
                        lemma_headers_pushed(d, n, place as int);
                        lemma_text_in_order_push(n, d.order, place);
                    }
                    Ok(place)
                } else {
                    Err(CustomError::DuplicateKey { key: copy_bytes(key.name.as_slice()) })
                }
            },
        }
    }
}

/// The step that the line `line` made from `before` to `after`, arriving at
/// the table at `u`: the text of the line came behind the text that was
/// there, a header as the document now writes it.
pub open spec fn stepped(before: DocumentView, after: DocumentView, line: LineView, u: int) -> bool {
    &&& after.wf()
    &&& 0 <= u < after.tables.len()
    &&& holds_values(after.tables[u].kind)
    &&& after.order.last() == u
    &&& after.trailing == before.trailing
    &&& match line {
        LineView::KeyValue { .. } => {
            &&& after.text_in_order(after.order) == before.text_in_order(before.order)
                + line.render()
            &&& after.headers() == before.headers()
        },
        LineView::Header { decor, .. } => {
            &&& after.text_in_order(after.order) == before.text_in_order(before.order) + (
            decor.prefix + after.header_text(u) + decor.suffix)
            &&& after.headers() == before.headers().push(after.header_text(u))
        },
    }
}

impl Document {
    /// Applies one line to the document whose table at `current` was opened
    /// last. Where the line is refused, tables that its header made on the
    /// way may stay.
    pub(crate) fn apply_line(&mut self, current: usize, line: Line) -> (r: Result<usize, CustomError>)
        requires
            old(self)@.wf(),
            current < old(self)@.tables.len(),
            holds_values(old(self)@.tables[current as int].kind),
            old(self)@.order.last() == current,
            line@.wf(),
        ensures
            match r {
                Ok(u) => old(self)@.apply(current as int, line@) == Ok::<
                    (DocumentView, int),
                    CustomErrorView,
                >((final(self)@, u as int)) && stepped(old(self)@, final(self)@, line@, u as int),
                Err(e) => old(self)@.apply(current as int, line@) == Err::<
                    (DocumentView, int),
                    CustomErrorView,
                >(e@),
            },
    {
        let ghost d = self@;
        match line {
            Line::KeyValue { key, value } => {
                if self.tables[current].find(key.name.as_slice()).is_some() {
                    return Err(CustomError::DuplicateKey { key: copy_bytes(key.name.as_slice()) });
                }
                proof {
                    lemma_with_value_wf(d, current as int, key@, value@);
                    lemma_with_value_text(d, current as int, key@, value@);
                    lemma_headers_kept(d, d.with_value(current as int, key@, value@));
                }
                self.push_value(current, key, value);
                Ok(current)
            },
            Line::Header { decor, path, array } => {
                let last = path.len() - 1;
                proof {
                    assert(keys_view(path@).drop_last() =~= keys_view(path@).subrange(
                        0,
                        last as int,
                    ));
                }
                let t = match self.descend_path(&path, last) {
                    Ok(t) => t,
                    Err(e) => {
                        return Err(e);
                    },
                };
                if array {
                    self.open_array(t, &path[last], decor)
                } else {
                    self.open_table(t, &path[last], decor)
                }
            },
        }
    }

    /// Builds the document that the lines make, with `trailing` behind the
    /// last line. The text of its tables, in the order of their headers, is
    /// the text of the lines with each header written as the document writes
    /// it.
    pub fn from_lines(lines: Vec<Line>, trailing: Vec<u8>) -> (r: Result<Document, CustomError>)
        requires
            forall|i: int| 0 <= i < lines@.len() ==> (#[trigger] lines@[i])@.wf(),
        ensures
            match r {
                Ok(doc) => {
                    &&& spec_build(lines_view(lines@), trailing@) == Ok::<
                        DocumentView,
                        CustomErrorView,
                    >(doc@)
                    &&& doc@.wf()
                    &&& doc@.text_in_order(doc@.order) == normalized_text(
                        lines_view(lines@),
                        doc@.headers(),
                    )
                    &&& doc@.trailing == trailing@
                },
                Err(e) => spec_build(lines_view(lines@), trailing@) == Err::<
                    DocumentView,
                    CustomErrorView,
                >(e@),
            },
    {
        let ghost ls = lines_view(lines@);
        let ghost first = DocumentView::start(trailing@);
        let mut doc = Document::new();
        doc.trailing = trailing;
        let mut current: usize = 0;
        proof {
            lemma_start_wf(trailing@);
            assert(doc@ == first);
            assert(ls.subrange(0, 0) =~= Seq::empty());
        }
        for line in it: lines.into_iter()
            invariant
                it.seq() == lines@,
                ls == lines_view(lines@),
                first == DocumentView::start(trailing@),
                forall|i: int| 0 <= i < lines@.len() ==> (#[trigger] lines@[i])@.wf(),
                doc@.wf(),
                current < doc@.tables.len(),
                holds_values(doc@.tables[current as int].kind),
                doc@.order.last() == current,
                doc@.trailing == trailing@,
                first.apply_all(0, ls.subrange(0, it.index() as int)) == Ok::<
                    (DocumentView, int),
                    CustomErrorView,
                >((doc@, current as int)),
                doc@.text_in_order(doc@.order) == normalized_text(
                    ls.subrange(0, it.index() as int),
                    doc@.headers(),
                ),
        {
            let ghost i = it.index() as int;
            let ghost before = doc@;
            proof {
                assert(line@ == ls[i]);
                assert(lines@[i]@.wf());
                let next = ls.subrange(0, i + 1);
                assert(next.drop_last() =~= ls.subrange(0, i));
                assert(next.last() == ls[i]);
                assert(first.apply_all(0, next) == before.apply(current as int, ls[i]));
            }
            match doc.apply_line(current, line) {
                Ok(u) => {
                    proof {
                        let next = ls.subrange(0, i + 1);
                        match ls[i] {
                            LineView::KeyValue { .. } => {},
                            LineView::Header { decor, .. } => {
                                assert(doc@.headers().drop_last() =~= before.headers());
                            },
                        }
                    }
                    current = u;
                },
                Err(e) => {
                    proof {
                        lemma_apply_stops(first, ls, i + 1, ls.len() as int);
                        assert(ls.subrange(0, ls.len() as int) =~= ls);
                    }
                    return Err(e);
                },
            }
        }
        proof {
            assert(ls.subrange(0, ls.len() as int) =~= ls);
        }
        Ok(doc)
    }
}

} // verus!

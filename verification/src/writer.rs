//! Writing a document back: in the order in which the headers were written,
//! or in canonical order.

use crate::document::{Document, DocumentView};
use crate::document_proofs::lemma_entries_text_push;
use crate::table::{entries_text, headed, Entry, EntryView, Item, ItemView, Table, TableKind};
use crate::text::{brackets, BRACKET_CLOSE, BRACKET_OPEN, DOT, EQUALS};
use vstd::prelude::*;

verus! {

/// The text in an order that is made of two is the text of the first and the
/// text of the second.
pub proof fn lemma_text_in_order_concat(d: DocumentView, a: Seq<usize>, b: Seq<usize>)
    ensures
        d.text_in_order(a + b) == d.text_in_order(a) + d.text_in_order(b),
    decreases b.len(),
{
    if b.len() == 0 {
        assert(a + b =~= a);
        assert(d.text_in_order(a) + d.text_in_order(b) =~= d.text_in_order(a));
    } else {
        lemma_text_in_order_concat(d, a, b.drop_last());
        assert((a + b).drop_last() =~= a + b.drop_last());
        assert((a + b).last() == b.last());
        assert(d.text_in_order(a + b) =~= d.text_in_order(a) + d.text_in_order(b));
    }
}

/// The text in the order of a single table is the text of that table.
pub proof fn lemma_text_in_order_one(d: DocumentView, t: usize)
    ensures
        d.text_in_order(seq![t]) == d.table_text(t as int),
{
    assert(seq![t].drop_last() =~= Seq::<usize>::empty());
    assert(seq![t].last() == t);
    assert(d.text_in_order(Seq::<usize>::empty()) =~= Seq::<u8>::empty());
    assert(d.text_in_order(seq![t]) =~= d.table_text(t as int));
}

/// Implicit tables have no text, so leaving them out of an order leaves the
/// text as it is.
pub proof fn lemma_written_text(d: DocumentView, order: Seq<usize>)
    ensures
        d.text_in_order(d.written(order)) == d.text_in_order(order),
    decreases order.len(),
{
    if order.len() > 0 {
        lemma_written_text(d, order.drop_last());
        let front = d.written(order.drop_last());
        if d.tables[order.last() as int].kind == TableKind::Implicit {
            assert(d.text_in_order(order) =~= d.text_in_order(order.drop_last()));
        } else {
            assert(front.push(order.last()).drop_last() =~= front);
        }
    }
}

/// Tells whether the item is, or holds, the table at `child`.
pub fn item_refers(item: &Item, child: usize) -> (r: bool)
    ensures
        r == item@.refers(child),
{
    match item {
        Item::Value(_) => false,
        Item::Table(c) => *c == child,
        Item::ArrayOfTables(v) => {
            let mut k: usize = 0;
            while k < v.len()
                invariant
                    0 <= k <= v.len(),
                    item@ == ItemView::ArrayOfTables(v@),
                    forall|j: int| 0 <= j < k ==> v@[j] != child,
                decreases v.len() - k,
            {
                if v[k] == child {
                    assert(v@[k as int] == child);
                    return true;
                }
                k += 1;
            }
            false
        },
    }
}

impl Document {
    /// Finds, among the entries of its parent, the entry that holds the
    /// table at `c`.
    pub fn slot_of(&self, c: usize) -> (e: usize)
        requires
            self@.wf(),
            0 < c < self@.tables.len(),
            self@.tables[c as int].kind != TableKind::Detached,
        ensures
            e == self@.slot_of(c as int),
            e < self@.tables[self@.tables[c as int].parent as int].entries.len(),
    {
        proof {
            assert(self@.placed(c as int));
        }
        let p = self.tables[c].parent;
        let ghost want = self@.slot_of(c as int);
        proof {
            assert(self@.table_ok(p as int));
            assert(self@.tables[p as int].entries[want].item.refers(c));
        }
        let entries = &self.tables[p].entries;
        let mut e: usize = 0;
        while e < entries.len()
            invariant
                0 <= e <= entries@.len(),
                c < self@.tables.len(),
                p < self@.tables.len(),
                entries@ == self.tables@[p as int].entries@,
                p == self@.tables[c as int].parent,
                0 <= want < entries@.len(),
                self@.tables[p as int].entries[want].item.refers(c),
                self@.tables[p as int].distinct_children(),
                forall|j: int| 0 <= j < e ==> !(#[trigger] self@.tables[p as int].entries[j]).item.refers(
                    c,
                ),
            decreases entries@.len() - e,
        {
            if item_refers(&entries[e].item, c) {
                proof {
                    assert(self@.tables[p as int].entries[e as int].item.refers(c));
                }
                return e;
            }
            e += 1;
        }
        proof {
            assert(!self@.tables[p as int].entries[want].item.refers(c));
        }
        0
    }

    /// Appends the keys that lead to the table at `t`, with dots between
    /// them, to `out`.
    pub fn write_path(&self, t: usize, out: &mut Vec<u8>)
        requires
            self@.wf(),
            t < self@.tables.len(),
        ensures
            final(out)@ == old(out)@ + self@.path_text(t as int),
        decreases t,
    {
        if t == 0 {
            assert(old(out)@ + self@.path_text(0) =~= old(out)@);
            return ;
        }
        match self.tables[t].kind {
            TableKind::Detached => {
                assert(old(out)@ + self@.path_text(t as int) =~= old(out)@);
                return ;
            },
            _ => {},
        }
        proof {
            assert(self@.placed(t as int));
        }
        let p = self.tables[t].parent;
        if p != 0 {
            self.write_path(p, out);
            out.push(DOT);
        }
        let e = self.slot_of(t);
        out.extend_from_slice(self.tables[p].entries[e].key.raw.as_slice());
        proof {
            assert(self@.key_of(t as int) == self.tables@[p as int].entries@[e as int].key.raw@);
            assert(final(out)@ =~= old(out)@ + self@.path_text(t as int));
        }
    }

    /// Appends the header line of the table at `t`, with what stands around
    /// it, to `out`; nothing for a table without header.
    pub fn write_heading(&self, t: usize, out: &mut Vec<u8>)
        requires
            self@.wf(),
            t < self@.tables.len(),
        ensures
            final(out)@ == old(out)@ + self@.heading(t as int),
    {
        let table = &self.tables[t];
        let array = match table.kind {
            TableKind::Header => false,
            TableKind::ArrayElement => true,
            _ => {
                assert(old(out)@ + self@.heading(t as int) =~= old(out)@);
                return ;
            },
        };
        out.extend_from_slice(table.decor.prefix.as_slice());
        out.push(BRACKET_OPEN);
        if array {
            out.push(BRACKET_OPEN);
        }
        self.write_path(t, out);
        out.push(BRACKET_CLOSE);
        if array {
            out.push(BRACKET_CLOSE);
        }
        out.extend_from_slice(table.decor.suffix.as_slice());
        proof {
            assert(final(out)@ =~= old(out)@ + (self@.tables[t as int].decor.prefix + (brackets(
                array,
                true,
            ) + self@.path_text(t as int) + brackets(array, false))
                + self@.tables[t as int].decor.suffix));
        }
    }

    /// Appends the text of the table at `t`, its header and the lines of its
    /// values, to `out`.
    pub fn write_table(&self, t: usize, out: &mut Vec<u8>)
        requires
            self@.wf(),
            t < self@.tables.len(),
        ensures
            final(out)@ == old(out)@ + self@.table_text(t as int),
    {
        let table = &self.tables[t];
        match table.kind {
            TableKind::Implicit => {
                assert(old(out)@ + self@.table_text(t as int) =~= old(out)@);
                return ;
            },
            _ => {},
        }
        self.write_heading(t, out);
        let ghost base = out@;
        let ghost all = self@.tables[t as int].entries;
        let mut e: usize = 0;
        proof {
            assert(all.subrange(0, 0) =~= Seq::empty());
            assert(base + entries_text(all.subrange(0, 0)) =~= base);
        }
        while e < table.entries.len()
            invariant
                0 <= e <= table.entries@.len(),
                all == self@.tables[t as int].entries,
                all.len() == table.entries@.len(),
                forall|j: int| 0 <= j < all.len() ==> #[trigger] all[j] == table.entries@[j]@,
                out@ == base + entries_text(all.subrange(0, e as int)),
            decreases table.entries@.len() - e,
        {
            let ghost before = out@;
            match &table.entries[e].item {
                Item::Value(v) => {
                    table.entries[e].key.write_to(out);
                    out.push(EQUALS);
                    v.write_to(out);
                },
                _ => {},
            }
            proof {
                let entry = all[e as int];
                assert(out@ =~= before + entry.text());
                assert(all.subrange(0, e as int + 1) =~= all.subrange(0, e as int).push(entry));
                lemma_entries_text_push(all.subrange(0, e as int), entry);
                assert(out@ =~= base + entries_text(all.subrange(0, e as int + 1)));
            }
            e += 1;
        }
        proof {
            assert(all.subrange(0, all.len() as int) =~= all);
            assert(final(out)@ =~= old(out)@ + (self@.heading(t as int) + entries_text(all)));
        }
    }

    /// The text of the document with the tables in the order in which their
    /// headers were written.
    pub fn to_bytes_in_original_order(&self) -> (out: Vec<u8>)
        requires
            self@.wf(),
        ensures
            out@ == self@.original_text(),
    {
        let mut out: Vec<u8> = Vec::new();
        let ghost order = self@.order;
        let mut k: usize = 0;
        proof {
            assert(order.subrange(0, 0) =~= Seq::empty());
        }
        while k < self.order.len()
            invariant
                0 <= k <= self.order@.len(),
                self@.wf(),
                order == self@.order,
                out@ == self@.text_in_order(order.subrange(0, k as int)),
            decreases self.order@.len() - k,
        {
            proof {
                assert(self@.listed_ok(k as int));
                let next = order.subrange(0, k as int + 1);
                assert(next.drop_last() =~= order.subrange(0, k as int));
                assert(next.last() == order[k as int]);
            }
            self.write_table(self.order[k], &mut out);
            k += 1;
        }
        proof {
            assert(order.subrange(0, order.len() as int) =~= order);
        }
        out.extend_from_slice(self.trailing.as_slice());
        out
    }

    /// Appends the texts of the table at `t` and of the tables below it, in
    /// canonical order, to `out`.
    pub fn write_subtree(&self, t: usize, out: &mut Vec<u8>)
        requires
            self@.wf(),
            t < self@.tables.len(),
        ensures
            final(out)@ == old(out)@ + self@.text_in_order(self@.subtree(t as int)),
        decreases self@.tables.len() - t,
    {
        let ghost d = self@;
        let ghost base = out@;
        self.write_table(t, out);
        let table = &self.tables[t];
        let ghost mut done: Seq<usize> = Seq::empty();
        let mut e: usize = 0;
        proof {
            assert(d.table_ok(t as int));
            assert(d.text_in_order(done) =~= Seq::<u8>::empty());
            assert(done + d.children_from(t as int, 0) =~= d.children_from(t as int, 0));
            assert(out@ =~= base + d.table_text(t as int) + d.text_in_order(done));
        }
        while e < table.entries.len()
            invariant
                d == self@,
                d.wf(),
                t < d.tables.len(),
                d.table_ok(t as int),
                table == &self.tables@[t as int],
                0 <= e <= table.entries@.len(),
                table.entries@.len() == d.tables[t as int].entries.len(),
                done + d.children_from(t as int, e as int) == d.children_from(t as int, 0),
                out@ == base + d.table_text(t as int) + d.text_in_order(done),
            decreases table.entries@.len() - e,
        {
            let ghost before = out@;
            let ghost item = d.tables[t as int].entries[e as int].item;
            let ghost part: Seq<usize>;
            proof {
                assert(d.item_ok(t as int, item));
                assert(item == table.entries@[e as int].item@);
            }
            match &table.entries[e].item {
                Item::Value(_) => {
                    proof {
                        part = Seq::empty();
                        assert(d.text_in_order(part) =~= Seq::<u8>::empty());
                        assert(out@ =~= before + d.text_in_order(part));
                    }
                },
                Item::Table(c) => {
                    proof {
                        part = d.subtree(*c as int);
                    }
                    self.write_subtree(*c, out);
                },
                Item::ArrayOfTables(v) => {
                    let ghost mut seen: Seq<usize> = Seq::empty();
                    let mut k: usize = 0;
                    proof {
                        assert(d.text_in_order(seen) =~= Seq::<u8>::empty());
                        assert(seen + d.elements_from(t as int, e as int, 0) =~= d.elements_from(
                            t as int,
                            e as int,
                            0,
                        ));
                        assert(out@ =~= before + d.text_in_order(seen));
                    }
                    while k < v.len()
                        invariant
                            d == self@,
                            d.wf(),
                            t < d.tables.len(),
                            e < d.tables[t as int].entries.len(),
                            d.tables[t as int].entries[e as int].item == ItemView::ArrayOfTables(
                                v@,
                            ),
                            d.item_ok(t as int, ItemView::ArrayOfTables(v@)),
                            0 <= k <= v@.len(),
                            seen + d.elements_from(t as int, e as int, k as int)
                                == d.elements_from(t as int, e as int, 0),
                            out@ == before + d.text_in_order(seen),
                        decreases v@.len() - k,
                    {
                        let ghost c = v@[k as int];
                        proof {
                            assert(d.element_ok(t as int, c));
                            lemma_text_in_order_concat(d, seen, d.subtree(c as int));
                            assert((seen + d.subtree(c as int)) + d.elements_from(
                                t as int,
                                e as int,
                                k as int + 1,
                            ) =~= seen + d.elements_from(t as int, e as int, k as int));
                        }
                        self.write_subtree(v[k], out);
                        proof {
                            assert(out@ =~= before + (d.text_in_order(seen) + d.text_in_order(
                                d.subtree(c as int),
                            )));
                            seen = seen + d.subtree(c as int);
                        }
                        k += 1;
                    }
                    proof {
                        part = seen;
                        assert(d.elements_from(t as int, e as int, v@.len() as int) =~= Seq::<
                            usize,
                        >::empty());
                        assert(seen + Seq::<usize>::empty() =~= seen);
                    }
                },
            }
            proof {
                assert(out@ == before + d.text_in_order(part));
                assert(d.children_from(t as int, e as int) =~= part + d.children_from(
                    t as int,
                    e as int + 1,
                ));
                lemma_text_in_order_concat(d, done, part);
                assert((done + part) + d.children_from(t as int, e as int + 1) =~= done
                    + d.children_from(t as int, e as int));
                assert(out@ =~= base + d.table_text(t as int) + (d.text_in_order(done)
                    + d.text_in_order(part)));
                done = done + part;
            }
            e += 1;
        }
        proof {
            assert(d.children_from(t as int, e as int) =~= Seq::<usize>::empty());
            assert(done + Seq::<usize>::empty() =~= done);
            lemma_text_in_order_one(d, t);
            lemma_text_in_order_concat(d, seq![t], done);
            assert(final(out)@ =~= base + (d.text_in_order(seq![t]) + d.text_in_order(done)));
        }
    }

    /// The text of the document with the tables in canonical order: every
    /// table before the tables below it, the tables of an array together.
    pub fn to_bytes(&self) -> (out: Vec<u8>)
        requires
            self@.wf(),
        ensures
            out@ == self@.canonical_text(),
    {
        let mut out: Vec<u8> = Vec::new();
        self.write_subtree(0, &mut out);
        out.extend_from_slice(self.trailing.as_slice());
        proof {
            assert(out@ =~= self@.text_in_order(self@.subtree(0)) + self@.trailing);
        }
        out
    }

    /// Appends the places of the table at `t` and of the tables below it, in
    /// canonical order, to `out`.
    pub fn collect_subtree(&self, t: usize, out: &mut Vec<usize>)
        requires
            self@.wf(),
            t < self@.tables.len(),
        ensures
            final(out)@ == old(out)@ + self@.subtree(t as int),
        decreases self@.tables.len() - t,
    {
        let ghost d = self@;
        let ghost base = out@;
        out.push(t);
        let table = &self.tables[t];
        let mut e: usize = 0;
        proof {
            assert(d.table_ok(t as int));
            assert(out@ =~= base + seq![t]);
        }
        while e < table.entries.len()
            invariant
                d == self@,
                d.wf(),
                t < d.tables.len(),
                d.table_ok(t as int),
                table == &self.tables@[t as int],
                0 <= e <= table.entries@.len(),
                table.entries@.len() == d.tables[t as int].entries.len(),
                out@ + d.children_from(t as int, e as int) == base + seq![t] + d.children_from(
                    t as int,
                    0,
                ),
            decreases table.entries@.len() - e,
        {
            let ghost before = out@;
            let ghost item = d.tables[t as int].entries[e as int].item;
            proof {
                assert(d.item_ok(t as int, item));
                assert(item == table.entries@[e as int].item@);
            }
            match &table.entries[e].item {
                Item::Value(_) => {},
                Item::Table(c) => {
                    self.collect_subtree(*c, out);
                },
                Item::ArrayOfTables(v) => {
                    let mut k: usize = 0;
                    proof {
                        assert(out@ + d.elements_from(t as int, e as int, 0) =~= before
                            + d.elements_from(t as int, e as int, 0));
                    }
                    while k < v.len()
                        invariant
                            d == self@,
                            d.wf(),
                            t < d.tables.len(),
                            e < d.tables[t as int].entries.len(),
                            d.tables[t as int].entries[e as int].item == ItemView::ArrayOfTables(
                                v@,
                            ),
                            d.item_ok(t as int, ItemView::ArrayOfTables(v@)),
                            0 <= k <= v@.len(),
                            out@ + d.elements_from(t as int, e as int, k as int) == before
                                + d.elements_from(t as int, e as int, 0),
                        decreases v@.len() - k,
                    {
                        let ghost c = v@[k as int];
                        let ghost mid = out@;
                        proof {
                            assert(d.element_ok(t as int, c));
                        }
                        self.collect_subtree(v[k], out);
                        proof {
                            assert(out@ + d.elements_from(t as int, e as int, k as int + 1) =~= mid
                                + d.elements_from(t as int, e as int, k as int));
                        }
                        k += 1;
                    }
                    proof {
                        assert(d.elements_from(t as int, e as int, v@.len() as int) =~= Seq::<
                            usize,
                        >::empty());
                        assert(out@ =~= before + d.elements_from(t as int, e as int, 0));
                    }
                },
            }
            proof {
                assert(out@ + d.children_from(t as int, e as int + 1) =~= before + d.children_from(
                    t as int,
                    e as int,
                ));
            }
            e += 1;
        }
        proof {
            assert(d.children_from(t as int, e as int) =~= Seq::<usize>::empty());
            assert(final(out)@ =~= base + (seq![t] + d.children_from(t as int, 0)));
        }
    }

    /// The places of the tables in canonical order.
    pub fn canonical_places(&self) -> (out: Vec<usize>)
        requires
            self@.wf(),
        ensures
            out@ == self@.canonical_order(),
    {
        let mut out: Vec<usize> = Vec::new();
        self.collect_subtree(0, &mut out);
        assert(out@ =~= self@.subtree(0));
        out
    }

    /// The places among `places` of the tables that are not implicit.
    pub fn written_places(&self, places: &Vec<usize>) -> (kept: Vec<usize>)
        requires
            all_below(places@, self@.tables.len() as int),
        ensures
            kept@ == self@.written(places@),
    {
        let ghost d = self@;
        let mut kept: Vec<usize> = Vec::new();
        let mut k: usize = 0;
        proof {
            assert(places@.subrange(0, 0) =~= Seq::empty());
        }
        while k < places.len()
            invariant
                d == self@,
                0 <= k <= places@.len(),
                all_below(places@, d.tables.len() as int),
                kept@ == d.written(places@.subrange(0, k as int)),
            decreases places@.len() - k,
        {
            proof {
                let next = places@.subrange(0, k as int + 1);
                assert(next.drop_last() =~= places@.subrange(0, k as int));
                assert(next.last() == places@[k as int]);
                assert(places@[k as int] < d.tables.len());
            }
            match self.tables[places[k]].kind {
                TableKind::Implicit => {},
                _ => {
                    kept.push(places[k]);
                },
            }
            k += 1;
        }
        proof {
            assert(places@.subrange(0, places@.len() as int) =~= places@);
        }
        kept
    }

    /// Tells whether the headers were written in canonical order, so that
    /// both ways of writing the document give the same text.
    pub fn is_in_canonical_order(&self) -> (r: bool)
        requires
            self@.wf(),
        ensures
            r == self@.in_canonical_order(),
            r ==> self@.canonical_text() == self@.original_text(),
    {
        let places = self.canonical_places();
        proof {
            lemma_subtree_in_range(self@, 0);
        }
        let kept = self.written_places(&places);
        let r = same_places(&kept, &self.order);
        proof {
            if r {
                lemma_written_text(self@, self@.canonical_order());
            }
        }
        r
    }
}

/// Tells whether two lists of places are the same.
pub fn same_places(a: &Vec<usize>, b: &Vec<usize>) -> (r: bool)
    ensures
        r == (a@ == b@),
{
    if a.len() != b.len() {
        return false;
    }
    let mut i: usize = 0;
    while i < a.len()
        invariant
            0 <= i <= a@.len(),
            a@.len() == b@.len(),
            forall|j: int| 0 <= j < i ==> a@[j] == b@[j],
        decreases a@.len() - i,
    {
        if a[i] != b[i] {
            return false;
        }
        i += 1;
    }
    assert(a@ =~= b@);
    true
}

/// Whether all of `s` are below `n`.
pub open spec fn all_below(s: Seq<usize>, n: int) -> bool {
    forall|i: int| 0 <= i < s.len() ==> (#[trigger] s[i]) < n
}

/// Two sequences below a bound make one below that bound.
pub proof fn lemma_all_below_concat(a: Seq<usize>, b: Seq<usize>, n: int)
    requires
        all_below(a, n),
        all_below(b, n),
    ensures
        all_below(a + b, n),
{
    assert forall|i: int| 0 <= i < (a + b).len() implies (#[trigger] (a + b)[i]) < n by {
        if i < a.len() {
            assert((a + b)[i] == a[i]);
        } else {
            assert((a + b)[i] == b[i - a.len()]);
        }
    }
}

/// The tables below a table are tables of the document.
pub proof fn lemma_subtree_in_range(d: DocumentView, t: int)
    ensures
        all_below(d.subtree(t), d.tables.len() as int),
    decreases d.tables.len() - t, 2 * d.tables[t].entries.len() + 2, 0int,
{
    if 0 <= t < d.tables.len() {
        lemma_children_in_range(d, t, 0);
        assert(all_below(seq![t as usize], d.tables.len() as int));
        lemma_all_below_concat(seq![t as usize], d.children_from(t, 0), d.tables.len() as int);
    }
}

/// The tables below the entries of a table are tables of the document.
pub proof fn lemma_children_in_range(d: DocumentView, t: int, e: int)
    ensures
        all_below(d.children_from(t, e), d.tables.len() as int),
    decreases d.tables.len() - t, 2 * (d.tables[t].entries.len() - e) + 1, 0int,
{
    if 0 <= t < d.tables.len() && 0 <= e < d.tables[t].entries.len() {
        let n = d.tables.len() as int;
        lemma_children_in_range(d, t, e + 1);
        let part: Seq<usize> = match d.tables[t].entries[e].item {
            ItemView::Value(_) => Seq::empty(),
            ItemView::Table(c) => if t < c < d.tables.len() {
                d.subtree(c as int)
            } else {
                Seq::empty()
            },
            ItemView::ArrayOfTables(_) => d.elements_from(t, e, 0),
        };
        match d.tables[t].entries[e].item {
            ItemView::Value(_) => {},
            ItemView::Table(c) => {
                if t < c < d.tables.len() {
                    lemma_subtree_in_range(d, c as int);
                }
            },
            ItemView::ArrayOfTables(_) => {
                lemma_elements_in_range(d, t, e, 0);
            },
        }
        assert(all_below(part, n));
        lemma_all_below_concat(part, d.children_from(t, e + 1), n);
    }
}

/// The tables of and below an array of tables are tables of the document.
pub proof fn lemma_elements_in_range(d: DocumentView, t: int, e: int, k: int)
    ensures
        all_below(d.elements_from(t, e, k), d.tables.len() as int),
    decreases d.tables.len() - t, 2 * (d.tables[t].entries.len() - e),
        d.tables[t].entries[e].item->ArrayOfTables_0.len() - k,
{
    if 0 <= t < d.tables.len() && 0 <= e < d.tables[t].entries.len()
        && d.tables[t].entries[e].item is ArrayOfTables && 0 <= k
        < d.tables[t].entries[e].item->ArrayOfTables_0.len() {
        let n = d.tables.len() as int;
        let c = d.tables[t].entries[e].item->ArrayOfTables_0[k];
        lemma_elements_in_range(d, t, e, k + 1);
        let part: Seq<usize> = if t < c < d.tables.len() {
            d.subtree(c as int)
        } else {
            Seq::empty()
        };
        if t < c < d.tables.len() {
            lemma_subtree_in_range(d, c as int);
        }
        assert(all_below(part, n));
        lemma_all_below_concat(part, d.elements_from(t, e, k + 1), n);
    }
}

} // verus!

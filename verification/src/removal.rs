//! Taking a table, or an array of tables, out of a document with everything
//! below it.

use crate::document::{Document, DocumentView};
use crate::document_proofs::{lemma_entries_text_without, lemma_text_in_order_kept};
use crate::table::{headed, Item, ItemView, TableKind, TableView};
use crate::writer::item_refers;
use vstd::prelude::*;

verus! {

impl DocumentView {
    /// Whether the table at `x` is one that `item` holds, or stands below
    /// one.
    pub open spec fn below(self, item: ItemView, x: int) -> bool
        decreases x,
    {
        if x <= 0 || x >= self.tables.len() {
            false
        } else if item.refers(x as usize) {
            true
        } else if self.tables[x].parent < x {
            self.below(item, self.tables[x].parent as int)
        } else {
            false
        }
    }

    /// The places among `order` of the tables that are neither held by
    /// `item` nor stand below one that is.
    pub open spec fn surviving(self, item: ItemView, order: Seq<usize>) -> Seq<usize>
        decreases order.len(),
    {
        if order.len() == 0 {
            Seq::empty()
        } else if self.below(item, order.last() as int) {
            self.surviving(item, order.drop_last())
        } else {
            self.surviving(item, order.drop_last()).push(order.last())
        }
    }

    /// The table at `x` as it is once the entry `e` of the table at `t` and
    /// what it holds are taken out.
    pub open spec fn table_without(self, t: int, e: int, x: int) -> TableView {
        if self.below(self.tables[t].entries[e].item, x) {
            TableView { entries: Seq::empty(), kind: TableKind::Detached, ..self.tables[x] }
        } else if x == t {
            TableView { entries: self.tables[t].entries.remove(e), ..self.tables[t] }
        } else {
            self.tables[x]
        }
    }

    /// The document without the entry `e` of the table at `t`, which holds a
    /// table or an array of tables: the tables that the entry holds, and all
    /// tables below them, are taken out, and their headers leave the order of
    /// the headers. Every other table stays as it is, at its place.
    pub open spec fn without_table(self, t: int, e: int) -> DocumentView {
        DocumentView {
            tables: Seq::new(self.tables.len(), |x: int| self.table_without(t, e, x)),
            order: self.surviving(self.tables[t].entries[e].item, self.order),
            trailing: self.trailing,
        }
    }
}

/// No table at or before the table that holds an item stands below the item.
pub proof fn lemma_not_below(d: DocumentView, t: int, item: ItemView, x: int)
    requires
        0 <= t < d.tables.len(),
        d.item_ok(t, item),
        x <= t,
    ensures
        !d.below(item, x),
    decreases x,
{
    if 0 < x < d.tables.len() {
        match item {
            ItemView::ArrayOfTables(v) => {
                if v.contains(x as usize) {
                    let k = choose|k: int| 0 <= k < v.len() && v[k] == x as usize;
                    assert(d.element_ok(t, v[k]));
                }
            },
            _ => {},
        }
        assert(!item.refers(x as usize));
        if d.tables[x].parent < x {
            lemma_not_below(d, t, item, d.tables[x].parent as int);
        }
    }
}

/// What is left of an order: the places that do not stand below the item, in
/// the order they had, each once where each stood once.
pub proof fn lemma_surviving(d: DocumentView, item: ItemView, order: Seq<usize>)
    requires
        forall|i: int, j: int| 0 <= i < j < order.len() ==> order[i] != order[j],
    ensures
        forall|k: int|
            0 <= k < d.surviving(item, order).len() ==> order.contains(
                #[trigger] d.surviving(item, order)[k],
            ) && !d.below(item, d.surviving(item, order)[k] as int),
        forall|j: int|
            0 <= j < order.len() && !d.below(item, order[j] as int) ==> d.surviving(
                item,
                order,
            ).contains(#[trigger] order[j]),
        forall|a: int, b: int|
            0 <= a < b < d.surviving(item, order).len() ==> d.surviving(item, order)[a]
                != d.surviving(item, order)[b],
        order.len() > 0 && !d.below(item, order[0] as int) ==> d.surviving(item, order).len() > 0
            && d.surviving(item, order)[0] == order[0],
    decreases order.len(),
{
    if order.len() > 0 {
        let front = order.drop_last();
        let last = order.last();
        lemma_surviving(d, item, front);
        let kept = d.surviving(item, front);
        let now = d.surviving(item, order);
        assert forall|k: int| 0 <= k < kept.len() implies order.contains(#[trigger] kept[k])
            && kept[k] != last by {
            assert(front.contains(kept[k]));
            let j = choose|j: int| 0 <= j < front.len() && front[j] == kept[k];
            assert(order[j] == kept[k]);
            assert(order[j] != order[order.len() - 1]);
        }
        assert(order[order.len() - 1] == last);
        assert forall|k: int| 0 <= k < now.len() implies order.contains(#[trigger] now[k])
            && !d.below(item, now[k] as int) by {
            if k < kept.len() {
                assert(now[k] == kept[k]);
            }
        }
        assert forall|j: int|
            0 <= j < order.len() && !d.below(item, order[j] as int) implies now.contains(
            #[trigger] order[j],
        ) by {
            if j < front.len() {
                assert(front[j] == order[j]);
                assert(kept.contains(front[j]));
                let k = choose|k: int| 0 <= k < kept.len() && kept[k] == front[j];
                assert(now[k] == order[j]);
            } else {
                assert(now[now.len() - 1] == order[j]);
            }
        }
        assert forall|a: int, b: int| 0 <= a < b < now.len() implies now[a] != now[b] by {
            if b < kept.len() {
                assert(kept[a] != kept[b]);
            } else {
                assert(now[a] == kept[a]);
            }
        }
        if !d.below(item, order[0] as int) {
            if front.len() > 0 {
                assert(front[0] == order[0]);
                assert(now[0] == kept[0]);
            }
        }
    }
}

/// Taking a table or an array of tables out keeps the document in order.
pub proof fn lemma_without_table(d: DocumentView, t: int, e: int)
    requires
        d.wf(),
        0 <= t < d.tables.len(),
        0 <= e < d.tables[t].entries.len(),
        !(d.tables[t].entries[e].item is Value),
    ensures
        d.without_table(t, e).wf(),
{
    let n = d.without_table(t, e);
    let item = d.tables[t].entries[e].item;
    let old_es = d.tables[t].entries;
    let new_es = old_es.remove(e);
    assert(d.table_ok(t));
    assert(d.item_ok(t, item));
    assert forall|x: int| x <= t implies !d.below(item, x) by {
        lemma_not_below(d, t, item, x);
    }
    assert(n.tables[t].entries == new_es);
    assert forall|i: int| 0 <= i < new_es.len() implies #[trigger] new_es[i] == old_es[if i < e {
        i
    } else {
        i + 1
    }] by {}
    if t > 0 {
        assert(d.placed(t));
    }
    assert(d.tables[t].kind != TableKind::Detached);
    assert forall|c: int| 0 < c < n.tables.len() implies #[trigger] n.placed(c) by {
        assert(d.placed(c));
        if d.below(item, c) {
        } else if d.tables[c].kind == TableKind::Detached {
        } else {
            let p = d.tables[c].parent as int;
            let s = d.slot_of(c);
            assert(d.tables[p].entries[s].item.refers(c as usize));
            assert(!d.below(item, p));
            if p == t {
                assert(s != e);
                let m = if s < e {
                    s
                } else {
                    s - 1
                };
                assert(new_es[m] == old_es[s]);
                assert(n.tables[p].entries[m].item.refers(c as usize));
            } else {
                assert(n.tables[p].entries[s].item.refers(c as usize));
            }
        }
    }
    assert forall|x: int| 0 <= x < n.tables.len() implies #[trigger] n.table_ok(x) by {
        assert(d.table_ok(x));
        if d.below(item, x) {
        } else {
            let es = n.tables[x].entries;
            let was = d.tables[x].entries;
            assert forall|i: int| 0 <= i < es.len() implies n.item_ok(x, #[trigger] es[i].item) by {
                let i0 = if x == t && i >= e {
                    i + 1
                } else {
                    i
                };
                assert(es[i] == was[i0]);
                assert(d.item_ok(x, was[i0].item));
                match was[i0].item {
                    ItemView::Value(_) => {},
                    ItemView::Table(c) => {
                        if item.refers(c) {
                            assert(was[i0].item.refers(c));
                            assert(old_es[e].item.refers(c));
                            match item {
                                ItemView::ArrayOfTables(v) => {
                                    let k = choose|k: int| 0 <= k < v.len() && v[k] == c;
                                    assert(d.element_ok(t, v[k]));
                                },
                                _ => {},
                            }
                            assert(x == t);
                        }
                        assert(!d.below(item, c as int));
                    },
                    ItemView::ArrayOfTables(v) => {
                        assert forall|k: int| 0 <= k < v.len() implies n.element_ok(
                            x,
                            #[trigger] v[k],
                        ) by {
                            let c = v[k];
                            assert(d.element_ok(x, c));
                            if item.refers(c) {
                                assert(was[i0].item.refers(c));
                                assert(old_es[e].item.refers(c));
                                match item {
                                    ItemView::ArrayOfTables(w) => {
                                        let j = choose|j: int| 0 <= j < w.len() && w[j] == c;
                                        assert(d.element_ok(t, w[j]));
                                    },
                                    _ => {},
                                }
                                assert(x == t);
                            }
                            assert(!d.below(item, c as int));
                        }
                    },
                }
            }
            if x == t {
                assert forall|a: int, b: int| 0 <= a < b < es.len() implies (
                #[trigger] es[a]).key.name != (#[trigger] es[b]).key.name by {
                    let a0 = if a < e {
                        a
                    } else {
                        a + 1
                    };
                    let b0 = if b < e {
                        b
                    } else {
                        b + 1
                    };
                    assert(was[a0].key.name != was[b0].key.name);
                }
                assert forall|a: int, b: int, c: usize|
                    0 <= a < es.len() && 0 <= b < es.len() && (#[trigger] es[a].item.refers(c))
                        && (#[trigger] es[b].item.refers(c)) implies a == b by {
                    let a0 = if a < e {
                        a
                    } else {
                        a + 1
                    };
                    let b0 = if b < e {
                        b
                    } else {
                        b + 1
                    };
                    assert(was[a0].item.refers(c));
                    assert(was[b0].item.refers(c));
                }
            }
        }
    }
    assert(n.order_ok()) by {
        assert(d.order_ok());
        lemma_surviving(d, item, d.order);
        assert(!d.below(item, d.order[0] as int));
        assert forall|k: int| 0 <= k < n.order.len() implies #[trigger] n.listed_ok(k) by {
            assert(d.order.contains(n.order[k]));
            let j = choose|j: int| 0 <= j < d.order.len() && d.order[j] == n.order[k];
            assert(d.listed_ok(j));
            if k > 0 {
                assert(n.order[0] != n.order[k]);
                assert(j > 0);
            }
        }
        assert forall|x: usize|
            x < n.tables.len() && headed(n.tables[x as int].kind) implies #[trigger] n.order.contains(
            x,
        ) by {
            assert(!d.below(item, x as int));
            assert(d.order.contains(x));
            let j = choose|j: int| 0 <= j < d.order.len() && d.order[j] == x;
            assert(n.order.contains(d.order[j]));
        }
    }
}

/// The path of a table that stays does not change when a table is taken
/// out.
pub proof fn lemma_without_table_path(d: DocumentView, t: int, e: int, c: int)
    requires
        d.wf(),
        d.without_table(t, e).wf(),
        0 <= t < d.tables.len(),
        0 <= e < d.tables[t].entries.len(),
        !(d.tables[t].entries[e].item is Value),
        0 <= c < d.tables.len(),
        !d.below(d.tables[t].entries[e].item, c),
    ensures
        d.without_table(t, e).path_text(c) == d.path_text(c),
    decreases c,
{
    let n = d.without_table(t, e);
    let item = d.tables[t].entries[e].item;
    assert(d.table_ok(t));
    assert(d.item_ok(t, item));
    lemma_not_below(d, t, item, t);
    if t > 0 {
        assert(d.placed(t));
    }
    if c > 0 && d.tables[c].kind != TableKind::Detached {
        assert(d.placed(c));
        assert(n.placed(c));
        let p = d.tables[c].parent as int;
        let s = d.slot_of(c);
        let s2 = n.slot_of(c);
        assert(d.tables[p].entries[s].item.refers(c as usize));
        assert(n.tables[p].entries[s2].item.refers(c as usize));
        assert(!d.below(item, p));
        assert(n.table_ok(p));
        if p == t {
            assert(s != e);
            let m = if s < e {
                s
            } else {
                s - 1
            };
            assert(n.tables[p].entries[m] == d.tables[p].entries[s]);
            assert(n.tables[p].entries[m].item.refers(c as usize));
            assert(s2 == m);
        } else {
            assert(n.tables[p].entries[s].item.refers(c as usize));
            assert(s2 == s);
        }
        assert(n.key_of(c) == d.key_of(c));
        if p > 0 {
            lemma_without_table_path(d, t, e, p);
        }
    }
}

/// Taking a table or an array of tables out of a document changes no text
/// but theirs: every table that stays keeps its text, and the text of the
/// document in the original order is the text of the tables that stay, in
/// the order they had.
pub proof fn law_removal_keeps_text(d: DocumentView, t: int, e: int)
    requires
        d.wf(),
        0 <= t < d.tables.len(),
        0 <= e < d.tables[t].entries.len(),
        !(d.tables[t].entries[e].item is Value),
    ensures
        d.without_table(t, e).wf(),
        forall|x: int|
            0 <= x < d.tables.len() && !d.below(d.tables[t].entries[e].item, x)
                ==> #[trigger] d.without_table(t, e).table_text(x) == d.table_text(x),
        d.without_table(t, e).original_text() == d.text_in_order(
            d.surviving(d.tables[t].entries[e].item, d.order),
        ) + d.trailing,
{
    let n = d.without_table(t, e);
    let item = d.tables[t].entries[e].item;
    lemma_without_table(d, t, e);
    assert(d.table_ok(t));
    assert(d.item_ok(t, item));
    lemma_not_below(d, t, item, t);
    lemma_entries_text_without(d.tables[t].entries, e);
    assert forall|x: int| 0 <= x < d.tables.len() && !d.below(item, x) implies #[trigger] n.table_text(
        x,
    ) == d.table_text(x) by {
        lemma_without_table_path(d, t, e, x);
    }
    lemma_surviving(d, item, d.order);
    assert forall|k: int| 0 <= k < n.order.len() implies n.table_text(#[trigger] n.order[k] as int)
        == d.table_text(n.order[k] as int) by {
        assert(d.order.contains(n.order[k]));
        let j = choose|j: int| 0 <= j < d.order.len() && d.order[j] == n.order[k];
        assert(d.listed_ok(j));
    }
    lemma_text_in_order_kept(d, n, n.order);
}

impl Document {
    /// Takes the table, or the array of tables, bound to `name` in the table
    /// at `t` out of the document, with all tables below it. The other
    /// entries of the table keep their order, and every other table keeps its
    /// place and its text. Returns whether something was taken out; where the
    /// name is free or bound to a value, or there is no table at `t`, the
    /// document stays as it is.
    pub fn remove_table(&mut self, t: usize, name: &[u8]) -> (done: bool)
        requires
            old(self)@.wf(),
        ensures
            final(self)@.wf(),
            done ==> t < old(self)@.tables.len() && old(self)@.tables[t as int].find(name@) is Some
                && !(old(self)@.tables[t as int].entries[old(self)@.tables[t as int].find(
                name@,
            ).unwrap()].item is Value) && final(self)@ == old(self)@.without_table(
                t as int,
                old(self)@.tables[t as int].find(name@).unwrap(),
            ),
            !done ==> final(self)@ == old(self)@ && (t < old(self)@.tables.len() ==> match old(
                self,
            )@.tables[t as int].find(name@) {
                Some(e) => old(self)@.tables[t as int].entries[e].item is Value,
                None => true,
            }),
    {
        let ghost d = self@;
        let e = match self.find(t, name) {
            Some(e) => e,
            None => {
                return false;
            },
        };
        let holds_value = match &self.tables[t].entries[e].item {
            Item::Value(_) => true,
            _ => false,
        };
        if holds_value {
            return false;
        }
        let ghost item = d.tables[t as int].entries[e as int].item;
        let ghost n = d.without_table(t as int, e as int);
        proof {
            lemma_without_table(d, t as int, e as int);
            assert(d.table_ok(t as int));
            assert(d.item_ok(t as int, item));
            assert forall|x: int| x <= t implies !d.below(item, x) by {
                lemma_not_below(d, t as int, item, x);
            }
        }
        let table = &mut self.tables[t];
        let entry = table.entries.remove(e);
        proof {
            assert(self@.tables[t as int].entries =~= d.tables[t as int].entries.remove(e as int));
            assert(entry.item@ == item);
        }
        let marks = self.detach_below(&entry.item, Ghost(d), Ghost(t as int), Ghost(e as int));
        self.drop_from_order(&marks, Ghost(d), Ghost(item), Ghost(n));
        true
    }

    /// Takes out every table that `item` holds and every table below one,
    /// and tells for each place whether its table was among them.
    fn detach_below(
        &mut self,
        item: &Item,
        Ghost(d): Ghost<DocumentView>,
        Ghost(t): Ghost<int>,
        Ghost(e): Ghost<int>,
    ) -> (marks: Vec<bool>)
        requires
            d.wf(),
            0 <= t < d.tables.len(),
            0 <= e < d.tables[t].entries.len(),
            item@ == d.tables[t].entries[e].item,
            !d.below(item@, t),
            old(self)@.order == d.order,
            old(self)@.trailing == d.trailing,
            old(self)@.tables.len() == d.tables.len(),
            forall|x: int|
                0 <= x < d.tables.len() ==> #[trigger] old(self)@.tables[x] == (if x == t {
                    TableView { entries: d.tables[t].entries.remove(e), ..d.tables[t] }
                } else {
                    d.tables[x]
                }),
        ensures
            final(self)@.order == d.order,
            final(self)@.trailing == d.trailing,
            final(self)@.tables == d.without_table(t, e).tables,
            marks@.len() == d.tables.len(),
            forall|x: int| 0 <= x < d.tables.len() ==> #[trigger] marks@[x] == d.below(item@, x),
    {
        let len = self.tables.len();
        let mut marks: Vec<bool> = Vec::new();
        let mut x: usize = 0;
        while x < len
            invariant
                0 <= x <= len,
                len == d.tables.len(),
                d.wf(),
                0 <= t < d.tables.len(),
                0 <= e < d.tables[t].entries.len(),
                item@ == d.tables[t].entries[e].item,
                !d.below(item@, t),
                self@.order == d.order,
                self@.trailing == d.trailing,
                self@.tables.len() == len,
                marks@.len() == x,
                forall|j: int| 0 <= j < x ==> #[trigger] marks@[j] == d.below(item@, j),
                forall|j: int| 0 <= j < x ==> #[trigger] self@.tables[j] == d.table_without(t, e, j),
                forall|j: int|
                    x <= j < len ==> #[trigger] self@.tables[j] == (if j == t {
                        TableView { entries: d.tables[t].entries.remove(e), ..d.tables[t] }
                    } else {
                        d.tables[j]
                    }),
            decreases len - x,
        {
            let ghost before = self@;
            let parent = self.tables[x].parent;
            proof {
                assert(before.tables[x as int].parent == d.tables[x as int].parent);
            }
            let doomed = x > 0 && (item_refers(item, x) || (parent < x && marks[parent]));
            marks.push(doomed);
            if doomed {
                let table = &mut self.tables[x];
                table.kind = TableKind::Detached;
                table.entries = Vec::new();
                proof {
                    assert(self@.tables[x as int].entries =~= Seq::empty());
                    assert(self@.tables[x as int] == d.table_without(t, e, x as int));
                    assert forall|j: int| 0 <= j < len && j != x implies #[trigger] self@.tables[j]
                        == before.tables[j] by {}
                }
            }
            x += 1;
        }
        proof {
            assert(self@.tables =~= d.without_table(t, e).tables);
        }
        marks
    }

    /// Takes the tables that were taken out from the order of the headers.
    fn drop_from_order(
        &mut self,
        marks: &Vec<bool>,
        Ghost(d): Ghost<DocumentView>,
        Ghost(item): Ghost<ItemView>,
        Ghost(n): Ghost<DocumentView>,
    )
        requires
            d.wf(),
            old(self)@.order == d.order,
            old(self)@.trailing == d.trailing,
            old(self)@.tables == n.tables,
            n.order == d.surviving(item, d.order),
            n.trailing == d.trailing,
            marks@.len() == d.tables.len(),
            forall|x: int| 0 <= x < d.tables.len() ==> #[trigger] marks@[x] == d.below(item, x),
        ensures
            final(self)@ == n,
    {
        let mut kept: Vec<usize> = Vec::new();
        let mut k: usize = 0;
        proof {
            assert(d.order.subrange(0, 0) =~= Seq::empty());
        }
        while k < self.order.len()
            invariant
                0 <= k <= self.order@.len(),
                d.wf(),
                self@.order == d.order,
                marks@.len() == d.tables.len(),
                forall|x: int| 0 <= x < d.tables.len() ==> #[trigger] marks@[x] == d.below(item, x),
                kept@ == d.surviving(item, d.order.subrange(0, k as int)),
            decreases self.order@.len() - k,
        {
            proof {
                assert(d.listed_ok(k as int));
                let next = d.order.subrange(0, k as int + 1);
                assert(next.drop_last() =~= d.order.subrange(0, k as int));
                assert(next.last() == d.order[k as int]);
            }
            let place = self.order[k];
            if !marks[place] {
                kept.push(place);
            }
            k += 1;
        }
        proof {
            assert(d.order.subrange(0, d.order.len() as int) =~= d.order);
        }
        self.order = kept;
    }
}

} // verus!

//! Telling at run time whether a document is in order.

use crate::document::{Document, DocumentView};
use crate::table::{headed, holds_values, Item, ItemView, Table, TableKind};
use crate::text::bytes_eq;
use crate::writer::item_refers;
use vstd::prelude::*;

verus! {

/// No table is held by both items.
pub open spec fn disjoint(a: ItemView, b: ItemView) -> bool {
    forall|c: usize| !(#[trigger] a.refers(c) && b.refers(c))
}

/// Tells whether no table is held by both items.
pub fn items_disjoint(a: &Item, b: &Item) -> (r: bool)
    ensures
        r == disjoint(a@, b@),
{
    match a {
        Item::Value(_) => true,
        Item::Table(c) => {
            let shared = item_refers(b, *c);
            proof {
                if shared {
                    assert(a@.refers(*c) && b@.refers(*c));
                }
            }
            !shared
        },
        Item::ArrayOfTables(v) => {
            let mut k: usize = 0;
            while k < v.len()
                invariant
                    0 <= k <= v.len(),
                    a@ == ItemView::ArrayOfTables(v@),
                    forall|i: int| 0 <= i < k ==> !b@.refers(#[trigger] v@[i]),
                decreases v.len() - k,
            {
                if item_refers(b, v[k]) {
                    proof {
                        assert(v@.contains(v@[k as int]));
                        assert(a@.refers(v@[k as int]) && b@.refers(v@[k as int]));
                    }
                    return false;
                }
                k += 1;
            }
            proof {
                assert forall|c: usize| !(#[trigger] a@.refers(c) && b@.refers(c)) by {
                    if a@.refers(c) {
                        let i = choose|i: int| 0 <= i < v@.len() && v@[i] == c;
                        assert(!b@.refers(v@[i]));
                    }
                }
            }
            true
        },
    }
}

impl Table {
    /// Tells whether no two entries have the same name.
    pub fn has_distinct_names(&self) -> (r: bool)
        ensures
            r == self@.distinct_names(),
    {
        let ghost es = self@.entries;
        let mut j: usize = 0;
        while j < self.entries.len()
            invariant
                0 <= j <= self.entries.len(),
                es == self@.entries,
                forall|a: int, b: int|
                    0 <= a < b < j ==> (#[trigger] es[a]).key.name != (#[trigger] es[b]).key.name,
            decreases self.entries.len() - j,
        {
            let mut i: usize = 0;
            while i < j
                invariant
                    0 <= i <= j < self.entries.len(),
                    es == self@.entries,
                    forall|a: int|
                        0 <= a < i ==> (#[trigger] es[a]).key.name != es[j as int].key.name,
                decreases j - i,
            {
                if bytes_eq(
                    self.entries[i].key.name.as_slice(),
                    self.entries[j].key.name.as_slice(),
                ) {
                    assert(es[i as int].key.name == es[j as int].key.name);
                    return false;
                }
                i += 1;
            }
            j += 1;
        }
        true
    }

    /// Tells whether no table is held by two entries.
    pub fn has_distinct_children(&self) -> (r: bool)
        ensures
            r == self@.distinct_children(),
    {
        let ghost es = self@.entries;
        let mut j: usize = 0;
        while j < self.entries.len()
            invariant
                0 <= j <= self.entries.len(),
                es == self@.entries,
                forall|a: int, b: int| 0 <= a < b < j ==> disjoint(#[trigger] es[a].item, #[trigger] es[b].item),
            decreases self.entries.len() - j,
        {
            let mut i: usize = 0;
            while i < j
                invariant
                    0 <= i <= j < self.entries.len(),
                    es == self@.entries,
                    forall|a: int| 0 <= a < i ==> disjoint(#[trigger] es[a].item, es[j as int].item),
                decreases j - i,
            {
                if !items_disjoint(&self.entries[i].item, &self.entries[j].item) {
                    proof {
                        let a = es[i as int].item;
                        let b = es[j as int].item;
                        let c = choose|c: usize| a.refers(c) && b.refers(c);
                        assert(es[i as int].item.refers(c));
                        assert(es[j as int].item.refers(c));
                    }
                    return false;
                }
                i += 1;
            }
            j += 1;
        }
        proof {
            assert forall|a: int, b: int, c: usize|
                0 <= a < es.len() && 0 <= b < es.len() && (#[trigger] es[a].item.refers(c)) && (
                #[trigger] es[b].item.refers(c)) implies a == b by {
                if a < b {
                    assert(disjoint(es[a].item, es[b].item));
                } else if b < a {
                    assert(disjoint(es[b].item, es[a].item));
                }
            }
        }
        true
    }
}

impl Document {
    /// Tells whether the item can stand in the table at `t`.
    pub fn item_allowed(&self, t: usize, item: &Item) -> (r: bool)
        requires
            t < self@.tables.len(),
        ensures
            r == self@.item_ok(t as int, item@),
    {
        let len = self.tables.len();
        match item {
            Item::Value(v) => {
                let holds = match self.tables[t].kind {
                    TableKind::Root | TableKind::Header | TableKind::ArrayElement => true,
                    _ => false,
                };
                holds && v.is_well_formed()
            },
            Item::Table(c) => {
                if t < *c && *c < len && self.tables[*c].parent == t {
                    match self.tables[*c].kind {
                        TableKind::Implicit | TableKind::Header => true,
                        _ => false,
                    }
                } else {
                    false
                }
            },
            Item::ArrayOfTables(v) => {
                if v.len() == 0 {
                    return false;
                }
                let mut k: usize = 0;
                while k < v.len()
                    invariant
                        0 <= k <= v.len(),
                        t < self@.tables.len(),
                        len == self@.tables.len(),
                        item@ == ItemView::ArrayOfTables(v@),
                        forall|i: int| 0 <= i < k ==> self@.element_ok(t as int, #[trigger] v@[i]),
                        forall|i: int, j: int| 0 <= i < j < k ==> v@[i] < v@[j],
                    decreases v.len() - k,
                {
                    let c = v[k];
                    let fits = if t < c && c < len && self.tables[c].parent == t {
                        match self.tables[c].kind {
                            TableKind::ArrayElement => true,
                            _ => false,
                        }
                    } else {
                        false
                    };
                    if !fits {
                        assert(!self@.element_ok(t as int, v@[k as int]));
                        return false;
                    }
                    if k > 0 && v[k - 1] >= c {
                        assert(!(v@[k as int - 1] < v@[k as int]));
                        return false;
                    }
                    proof {
                        assert forall|i: int, j: int| 0 <= i < j < k + 1 implies v@[i] < v@[j] by {
                            if j == k && i < k - 1 {
                                assert(v@[i] < v@[k as int - 1]);
                            }
                        }
                    }
                    k += 1;
                }
                true
            },
        }
    }

    /// Tells whether the entries of the table at `t` have distinct names,
    /// hold distinct tables, and each item can stand there.
    pub fn table_allowed(&self, t: usize) -> (r: bool)
        requires
            t < self@.tables.len(),
        ensures
            r == self@.table_ok(t as int),
    {
        let table = &self.tables[t];
        if !table.has_distinct_names() || !table.has_distinct_children() {
            return false;
        }
        let mut e: usize = 0;
        while e < table.entries.len()
            invariant
                0 <= e <= table.entries@.len(),
                t < self@.tables.len(),
                table == &self.tables@[t as int],
                forall|i: int|
                    0 <= i < e ==> self@.item_ok(
                        t as int,
                        #[trigger] self@.tables[t as int].entries[i].item,
                    ),
            decreases table.entries@.len() - e,
        {
            if !self.item_allowed(t, &table.entries[e].item) {
                assert(!self@.item_ok(t as int, self@.tables[t as int].entries[e as int].item));
                return false;
            }
            e += 1;
        }
        true
    }

    /// Tells whether the table at `c` has its place in the tree.
    pub fn is_placed(&self, c: usize) -> (r: bool)
        requires
            0 < c < self@.tables.len(),
        ensures
            r == self@.placed(c as int),
    {
        let table = &self.tables[c];
        match table.kind {
            TableKind::Detached => {
                return table.entries.len() == 0;
            },
            TableKind::Root => {
                return false;
            },
            _ => {},
        }
        let p = table.parent;
        if p >= c {
            return false;
        }
        let entries = &self.tables[p].entries;
        let mut e: usize = 0;
        while e < entries.len()
            invariant
                0 <= e <= entries@.len(),
                p < c < self@.tables.len(),
                p == self@.tables[c as int].parent,
                self@.tables[c as int].kind != TableKind::Detached,
                self@.tables[c as int].kind != TableKind::Root,
                entries@ == self.tables@[p as int].entries@,
                forall|j: int|
                    0 <= j < e ==> !(#[trigger] self@.tables[p as int].entries[j]).item.refers(c),
            decreases entries@.len() - e,
        {
            if item_refers(&entries[e].item, c) {
                proof {
                    let d = self@;
                    let ci = c as int;
                    assert(d.tables[ci].parent as int == p);
                    assert(0 <= e < d.tables[p as int].entries.len());
                    assert(d.tables[p as int].entries[e as int].item.refers(ci as usize));
                    assert(d.held(ci));
                }
                return true;
            }
            e += 1;
        }
        false
    }

    /// Tells whether the order of the headers lists the table at `x`.
    pub fn is_listed(&self, x: usize) -> (r: bool)
        ensures
            r == self@.order.contains(x),
    {
        let mut k: usize = 0;
        while k < self.order.len()
            invariant
                0 <= k <= self.order@.len(),
                forall|j: int| 0 <= j < k ==> self.order@[j] != x,
            decreases self.order@.len() - k,
        {
            if self.order[k] == x {
                assert(self@.order[k as int] == x);
                return true;
            }
            k += 1;
        }
        false
    }

    /// Tells whether the order of the headers starts with the root and lists
    /// each table with a header once.
    pub fn order_allowed(&self) -> (r: bool)
        ensures
            r == self@.order_ok(),
    {
        let len = self.tables.len();
        if self.order.len() == 0 || self.order[0] != 0 {
            return false;
        }
        let mut k: usize = 0;
        while k < self.order.len()
            invariant
                0 <= k <= self.order@.len(),
                len == self@.tables.len(),
                forall|j: int| 0 <= j < k ==> #[trigger] self@.listed_ok(j),
                forall|i: int, j: int| 0 <= i < j < k ==> self@.order[i] != self@.order[j],
            decreases self.order@.len() - k,
        {
            let place = self.order[k];
            if place >= len {
                assert(!self@.listed_ok(k as int));
                return false;
            }
            if k > 0 {
                let with_header = match self.tables[place].kind {
                    TableKind::Header | TableKind::ArrayElement => true,
                    _ => false,
                };
                if !with_header {
                    assert(!self@.listed_ok(k as int));
                    return false;
                }
            }
            let mut i: usize = 0;
            while i < k
                invariant
                    0 <= i <= k < self.order@.len(),
                    place == self@.order[k as int],
                    forall|a: int| 0 <= a < i ==> self@.order[a] != place,
                decreases k - i,
            {
                if self.order[i] == place {
                    assert(self@.order[i as int] == self@.order[k as int]);
                    return false;
                }
                i += 1;
            }
            k += 1;
        }
        let mut x: usize = 0;
        while x < len
            invariant
                0 <= x <= len,
                len == self@.tables.len(),
                forall|t: usize|
                    t < x && headed(self@.tables[t as int].kind) ==> #[trigger] self@.order.contains(
                        t,
                    ),
            decreases len - x,
        {
            let with_header = match self.tables[x].kind {
                TableKind::Header | TableKind::ArrayElement => true,
                _ => false,
            };
            if with_header && !self.is_listed(x) {
                return false;
            }
            x += 1;
        }
        true
    }

    /// Tells whether the document is in order. Every document that this
    /// library makes is; one whose fields were written by hand may not be.
    pub fn is_well_formed(&self) -> (r: bool)
        ensures
            r == self@.wf(),
    {
        let len = self.tables.len();
        if len == 0 {
            return false;
        }
        match self.tables[0].kind {
            TableKind::Root => {},
            _ => {
                return false;
            },
        }
        let mut c: usize = 1;
        while c < len
            invariant
                1 <= c <= len,
                len == self@.tables.len(),
                forall|j: int| 0 < j < c ==> #[trigger] self@.placed(j),
            decreases len - c,
        {
            if !self.is_placed(c) {
                return false;
            }
            c += 1;
        }
        let mut t: usize = 0;
        while t < len
            invariant
                0 <= t <= len,
                len == self@.tables.len(),
                forall|j: int| 0 <= j < t ==> #[trigger] self@.table_ok(j),
            decreases len - t,
        {
            if !self.table_allowed(t) {
                return false;
            }
            t += 1;
        }
        self.order_allowed()
    }
}

} // verus!

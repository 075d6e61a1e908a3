//! Operations on inline tables: the names of the entries are distinct.

use crate::decor::{Decor, DecorView};
use crate::key::{Key, KeyView};
use crate::text::{bytes_eq, SPACE};
use crate::value::{
    entries_view, InlineEntry, InlineEntryView, InlineTable, InlineTableView, Value, ValueView,
};
use vstd::prelude::*;

verus! {

/// One space.
pub open spec fn one_space() -> Seq<u8> {
    seq![SPACE]
}

impl InlineTableView {
    /// Whether an entry has the name `name`.
    pub open spec fn has(self, name: Seq<u8>) -> bool {
        exists|i: int| 0 <= i < self.entries.len() && (#[trigger] self.entries[i]).key.name == name
    }

    /// The place of the entry with the name `name`.
    pub open spec fn find(self, name: Seq<u8>) -> Option<int> {
        if self.has(name) {
            Some(
                choose|i: int|
                    0 <= i < self.entries.len() && (#[trigger] self.entries[i]).key.name == name,
            )
        } else {
            None
        }
    }

    /// The table in which `key` is bound to `value`: in place of the value
    /// that the name had, under the key that was there, or as a new entry at
    /// the end.
    pub open spec fn with(self, key: KeyView, value: ValueView) -> InlineTableView {
        match self.find(key.name) {
            Some(i) => InlineTableView {
                entries: self.entries.update(
                    i,
                    InlineEntryView { key: self.entries[i].key, value },
                ),
                ..self
            },
            None => InlineTableView {
                entries: self.entries.push(InlineEntryView { key, value }),
                ..self
            },
        }
    }

    /// The table without the entry at `i`.
    pub open spec fn without(self, i: int) -> InlineTableView {
        InlineTableView { entries: self.entries.remove(i), ..self }
    }

    /// The table laid out anew: `{ a = 1, b = 2 }`, and `{}` without entries.
    pub open spec fn formatted(self) -> InlineTableView {
        InlineTableView {
            entries: Seq::new(
                self.entries.len(),
                |i: int|
                    InlineEntryView {
                        key: KeyView {
                            decor: DecorView { prefix: one_space(), suffix: one_space() },
                            ..self.entries[i].key
                        },
                        value: self.entries[i].value.decorated(
                            entry_value_decor(i == self.entries.len() - 1),
                        ),
                    },
            ),
            preamble: Seq::empty(),
            decor: self.decor,
        }
    }
}

/// The decoration that laying out an inline table gives to a value: a space
/// before it, and a space behind the last one.
pub open spec fn entry_value_decor(last: bool) -> DecorView {
    DecorView {
        prefix: one_space(),
        suffix: if last {
            one_space()
        } else {
            Seq::empty()
        },
    }
}

/// Makes a text of one space.
pub fn make_space() -> (v: Vec<u8>)
    ensures
        v@ == one_space(),
{
    let mut v: Vec<u8> = Vec::new();
    v.push(SPACE);
    v
}

impl InlineTable {
    /// An inline table without entries.
    pub fn new() -> (t: InlineTable)
        ensures
            t@ == InlineTableView::empty(),
    {
        let t = InlineTable { entries: Vec::new(), preamble: Vec::new(), decor: Decor::empty() };
        assert(t@.entries =~= Seq::empty());
        t
    }

    /// The number of entries.
    pub fn len(&self) -> (n: usize)
        ensures
            n == self@.entries.len(),
    {
        self.entries.len()
    }

    /// Whether the table has no entry.
    pub fn is_empty(&self) -> (b: bool)
        ensures
            b == (self@.entries.len() == 0),
    {
        self.entries.len() == 0
    }

    /// Finds the entry with the name `name`.
    pub fn find(&self, name: &[u8]) -> (r: Option<usize>)
        ensures
            match r {
                Some(i) => i < self@.entries.len() && self@.entries[i as int].key.name == name@,
                None => !self@.has(name@),
            },
            self@.distinct_names() ==> (r matches Some(i) ==> self@.find(name@) == Some(i as int)),
            r.is_none() ==> self@.find(name@).is_none(),
    {
        let mut i: usize = 0;
        while i < self.entries.len()
            invariant
                0 <= i <= self.entries.len(),
                forall|k: int| 0 <= k < i ==> (#[trigger] self@.entries[k]).key.name != name@,
            decreases self.entries.len() - i,
        {
            if bytes_eq(self.entries[i].key.name.as_slice(), name) {
                proof {
                    assert(self@.entries[i as int].key.name == name@);
                    if self@.distinct_names() {
                        let e = self@.find(name@).unwrap();
                        assert(self@.entries[e].key.name == name@);
                        if e < i {
                            assert(self@.entries[e].key.name != self@.entries[i as int].key.name);
                        }
                        if i < e {
                            assert(self@.entries[i as int].key.name != self@.entries[e].key.name);
                        }
                    }
                }
                return Some(i);
            }
            i += 1;
        }
        None
    }

    /// The value bound to `name`, if there is one.
    pub fn get(&self, name: &[u8]) -> (r: Option<&Value>)
        ensures
            match r {
                Some(v) => self@.has(name@) && exists|i: int|
                    0 <= i < self@.entries.len() && (#[trigger] self@.entries[i]).key.name == name@
                        && self@.entries[i].value == v@,
                None => !self@.has(name@),
            },
            self@.distinct_names() ==> (r matches Some(v) ==> v@
                == self@.entries[self@.find(name@).unwrap()].value),
    {
        match self.find(name) {
            Some(i) => {
                assert(self@.entries[i as int].key.name == name@);
                Some(&self.entries[i].value)
            },
            None => None,
        }
    }

    /// Binds `key` to `value`. Where the name is bound already, the value
    /// takes the place of the old one, which is returned, and the key that
    /// was there stays; else the entry comes last.
    pub fn insert(&mut self, key: Key, value: Value) -> (r: Option<Value>)
        requires
            old(self)@.distinct_names(),
        ensures
            final(self)@ == old(self)@.with(key@, value@),
            final(self)@.distinct_names(),
            match r {
                Some(v) => old(self)@.find(key@.name) matches Some(i) && v@
                    == old(self)@.entries[i].value,
                None => old(self)@.find(key@.name).is_none(),
            },
            old(self)@.wf() && value@.wf() ==> final(self)@.wf(),
    {
        let ghost before = self@;
        match self.find(key.name.as_slice()) {
            Some(i) => {
                let entry = &mut self.entries[i];
                let mut taken = value;
                std::mem::swap(&mut entry.value, &mut taken);
                proof {
                    let after = self@;
                    assert(after.entries =~= before.with(key@, value@).entries);
                    assert forall|a: int, b: int| 0 <= a < b < after.entries.len() implies (
                    #[trigger] after.entries[a]).key.name != (
                    #[trigger] after.entries[b]).key.name by {
                        assert(before.entries[a].key.name != before.entries[b].key.name);
                    }
                    if before.wf() && value@.wf() {
                        assert forall|a: int| 0 <= a < after.entries.len() implies (
                        #[trigger] after.entries[a]).value.wf() by {
                            if a != i {
                                assert(before.entries[a].value.wf());
                            }
                        }
                    }
                }
                Some(taken)
            },
            None => {
                self.entries.push(InlineEntry { key, value });
                proof {
                    let after = self@;
                    assert(after.entries =~= before.with(key@, value@).entries);
                    assert forall|a: int, b: int| 0 <= a < b < after.entries.len() implies (
                    #[trigger] after.entries[a]).key.name != (
                    #[trigger] after.entries[b]).key.name by {
                        if b == after.entries.len() - 1 {
                            assert(before.entries[a].key.name != key@.name);
                        } else {
                            assert(before.entries[a].key.name != before.entries[b].key.name);
                        }
                    }
                    if before.wf() && value@.wf() {
                        assert forall|a: int| 0 <= a < after.entries.len() implies (
                        #[trigger] after.entries[a]).value.wf() by {
                            if a < before.entries.len() {
                                assert(before.entries[a].value.wf());
                            }
                        }
                    }
                }
                None
            },
        }
    }

    /// Takes the entry with the name `name` out of the table and returns its
    /// value; the other entries keep their order.
    pub fn remove(&mut self, name: &[u8]) -> (r: Option<Value>)
        requires
            old(self)@.distinct_names(),
        ensures
            match r {
                Some(v) => old(self)@.find(name@) matches Some(i) && v@
                    == old(self)@.entries[i].value && final(self)@ == old(self)@.without(i),
                None => old(self)@.find(name@).is_none() && final(self)@ == old(self)@,
            },
            final(self)@.distinct_names(),
            !final(self)@.has(name@),
            old(self)@.wf() ==> final(self)@.wf(),
    {
        let ghost before = self@;
        match self.find(name) {
            Some(i) => {
                let entry = self.entries.remove(i);
                proof {
                    let after = self@;
                    assert(after.entries =~= before.entries.remove(i as int));
                    assert forall|a: int| 0 <= a < after.entries.len() implies #[trigger] after.entries[a]
                        == before.entries[if a < i {
                        a
                    } else {
                        a + 1
                    }] by {}
                    assert forall|a: int, b: int| 0 <= a < b < after.entries.len() implies (
                    #[trigger] after.entries[a]).key.name != (
                    #[trigger] after.entries[b]).key.name by {
                        let a0 = if a < i {
                            a
                        } else {
                            a + 1
                        };
                        let b0 = if b < i {
                            b
                        } else {
                            b + 1
                        };
                        assert(before.entries[a0].key.name != before.entries[b0].key.name);
                    }
                    assert forall|a: int| 0 <= a < after.entries.len() implies (
                    #[trigger] after.entries[a]).key.name != name@ by {
                        let a0 = if a < i {
                            a
                        } else {
                            a + 1
                        };
                        if a0 < i {
                            assert(before.entries[a0].key.name != before.entries[i as int].key.name);
                        } else {
                            assert(before.entries[i as int].key.name != before.entries[a0].key.name);
                        }
                    }
                    if before.wf() {
                        assert forall|a: int| 0 <= a < after.entries.len() implies (
                        #[trigger] after.entries[a]).value.wf() by {
                            let a0 = if a < i {
                                a
                            } else {
                                a + 1
                            };
                            assert(before.entries[a0].value.wf());
                        }
                    }
                }
                Some(entry.value)
            },
            None => None,
        }
    }

    /// Lays the table out anew: one space on both sides of each key and
    /// before each value, and one before the closing brace.
    pub fn fmt(&mut self)
        ensures
            final(self)@ == old(self)@.formatted(),
            old(self)@.wf() ==> final(self)@.wf(),
    {
        let ghost before = self@;
        let n = self.entries.len();
        let mut i: usize = 0;
        while i < n
            invariant
                0 <= i <= n,
                n == self.entries@.len(),
                n == before.entries.len(),
                self.decor@ == before.decor,
                forall|j: int|
                    0 <= j < i ==> (#[trigger] self.entries@[j])@ == before.formatted().entries[j],
                forall|j: int| i <= j < n ==> (#[trigger] self.entries@[j])@ == before.entries[j],
            decreases n - i,
        {
            let suffix = if i == n - 1 {
                make_space()
            } else {
                Vec::new()
            };
            let d = Decor { prefix: make_space(), suffix };
            assert(d@.suffix =~= entry_value_decor(i == n - 1).suffix);
            let entry = &mut self.entries[i];
            entry.key.decor = Decor { prefix: make_space(), suffix: make_space() };
            entry.value.decorate(d);
            i += 1;
        }
        self.preamble = Vec::new();
        proof {
            let want = before.formatted();
            assert(self@.entries =~= want.entries);
            if before.wf() {
                lemma_formatted_table_wf(before);
            }
        }
    }
}

/// Laying out a well-formed inline table leaves it well formed.
pub proof fn lemma_formatted_table_wf(t: InlineTableView)
    requires
        t.wf(),
    ensures
        t.formatted().wf(),
{
    let f = t.formatted();
    assert forall|a: int, b: int| 0 <= a < b < f.entries.len() implies (
    #[trigger] f.entries[a]).key.name != (#[trigger] f.entries[b]).key.name by {
        assert(t.entries[a].key.name != t.entries[b].key.name);
    }
    assert forall|a: int| 0 <= a < f.entries.len() implies (#[trigger] f.entries[a]).value.wf() by {
        assert(t.entries[a].value.wf());
    }
}

} // verus!

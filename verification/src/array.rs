//! Operations on arrays: an array holds values of one kind only.

use crate::decor::{Decor, DecorView};
use crate::text::{LF, SPACE};
use crate::errors::{CustomError, CustomErrorView};
use crate::value::{
    any_newline, values_have_newline, values_view, Array, ArrayView, Value, ValueKind, ValueView,
};
use vstd::prelude::*;

verus! {

impl ArrayView {
    /// Whether `v` may be appended: the array is empty or `v` has the tag of
    /// its elements.
    pub open spec fn accepts(self, v: ValueView) -> bool {
        self.values.len() == 0 || v.kind() == self.values[0].kind()
    }

    /// The array with `v` appended; `newlines` also records a line break in
    /// the decoration of `v`.
    pub open spec fn push(self, v: ValueView) -> ArrayView {
        ArrayView {
            values: self.values.push(v),
            newlines: self.newlines || v.decor().has_newline(),
            ..self
        }
    }

    /// The array after trying to append each of `vs` in turn; a value that is
    /// not accepted is skipped.
    pub open spec fn push_all(self, vs: Seq<ValueView>) -> ArrayView
        decreases vs.len(),
    {
        if vs.len() == 0 {
            self
        } else {
            let before = self.push_all(vs.drop_last());
            if before.accepts(vs.last()) {
                before.push(vs.last())
            } else {
                before
            }
        }
    }

    /// The array without its element at `i`; the closing region stays as it
    /// is, and `newlines` tells of the elements that are left.
    pub open spec fn remove(self, i: int) -> ArrayView {
        ArrayView {
            values: self.values.remove(i),
            newlines: any_newline(self.values.remove(i)),
            ..self
        }
    }

    /// The array laid out anew. On one line: `[1, 2, 3]`. On several lines:
    /// each element on a line of its own, four spaces in, with a comma behind
    /// it, and the closing bracket on a line of its own.
    pub open spec fn formatted(self, multiline: bool) -> ArrayView {
        let broken = multiline && self.values.len() > 0;
        ArrayView {
            values: Seq::new(
                self.values.len(),
                |i: int| self.values[i].decorated(element_decor(i == 0, multiline)),
            ),
            trailing: if broken {
                seq![LF]
            } else {
                Seq::empty()
            },
            trailing_comma: broken,
            newlines: broken,
            decor: self.decor,
        }
    }
}

/// The text before an element when an array is on several lines.
pub open spec fn line_indent() -> Seq<u8> {
    seq![LF, SPACE, SPACE, SPACE, SPACE]
}

/// The decoration that laying out an array gives to an element: nothing
/// behind it; before it a line break and four spaces on several lines, and on
/// one line a space unless the element is the first.
pub open spec fn element_decor(first: bool, multiline: bool) -> DecorView {
    DecorView {
        prefix: if multiline {
            line_indent()
        } else if first {
            Seq::empty()
        } else {
            seq![SPACE]
        },
        suffix: Seq::empty(),
    }
}

/// Makes the decoration that laying out an array gives to an element.
pub fn make_element_decor(first: bool, multiline: bool) -> (d: Decor)
    ensures
        d@ == element_decor(first, multiline),
{
    let mut prefix: Vec<u8> = Vec::new();
    if multiline {
        prefix.push(LF);
        prefix.push(SPACE);
        prefix.push(SPACE);
        prefix.push(SPACE);
        prefix.push(SPACE);
    } else if !first {
        prefix.push(SPACE);
    }
    let d = Decor { prefix, suffix: Vec::new() };
    assert(d@.prefix =~= element_decor(first, multiline).prefix);
    d
}

impl Array {
    /// An array without elements.
    pub fn new() -> (a: Array)
        ensures
            a@ == ArrayView::empty(),
    {
        let a = Array {
            values: Vec::new(),
            trailing: Vec::new(),
            trailing_comma: false,
            newlines: false,
            decor: Decor::empty(),
        };
        assert(a@.values =~= Seq::empty());
        a
    }

    /// The number of elements.
    pub fn len(&self) -> (n: usize)
        ensures
            n == self@.values.len(),
    {
        self.values.len()
    }

    /// Whether the array has no element.
    pub fn is_empty(&self) -> (b: bool)
        ensures
            b == (self@.values.len() == 0),
    {
        self.values.len() == 0
    }

    /// The element at `index`, if there is one.
    pub fn get(&self, index: usize) -> (r: Option<&Value>)
        ensures
            index < self@.values.len() ==> r.is_some() && r.unwrap()@ == self@.values[index as int],
            index >= self@.values.len() ==> r.is_none(),
    {
        if index < self.values.len() {
            Some(&self.values[index])
        } else {
            None
        }
    }

    /// The tag shared by the elements; `None` for an array without elements,
    /// which accepts any value.
    pub fn value_type(&self) -> (k: Option<ValueKind>)
        ensures
            k == self@.value_type(),
    {
        if self.values.len() == 0 {
            None
        } else {
            Some(self.values[0].kind())
        }
    }

    /// Whether a comma follows the last element.
    pub fn trailing_comma(&self) -> (b: bool)
        ensures
            b == self@.trailing_comma,
    {
        self.trailing_comma
    }

    /// The whitespace and comments before the closing bracket.
    pub fn trailing(&self) -> (t: &[u8])
        ensures
            t@ == self@.trailing,
    {
        self.trailing.as_slice()
    }

    /// Whether a line break was seen in the decoration of an element.
    pub fn newlines(&self) -> (b: bool)
        ensures
            b == self@.newlines,
    {
        self.newlines
    }

    /// Appends `value`, unless the array holds elements of another kind: then
    /// the array stays as it is and the error names both kinds.
    pub fn push(&mut self, value: Value) -> (r: Result<(), CustomError>)
        ensures
            old(self)@.accepts(value@) ==> r.is_ok() && final(self)@ == old(self)@.push(value@),
            !old(self)@.accepts(value@) ==> r.is_err() && final(self)@ == old(self)@ && r.unwrap_err()@
                == (CustomErrorView::MixedArrayType {
                got: value@.kind(),
                expected: old(self)@.values[0].kind(),
            }),
            old(self)@.wf() && value@.wf() ==> final(self)@.wf(),
    {
        let got = value.kind();
        if self.values.len() > 0 {
            let expected = self.values[0].kind();
            if got != expected {
                return Err(CustomError::MixedArrayType { got, expected });
            }
        }
        let has_break = value.decor().contains_newline();
        self.newlines = self.newlines || has_break;
        self.values.push(value);
        proof {
            let before = old(self)@;
            let after = final(self)@;
            assert(after.values =~= before.values.push(value@));
            if before.wf() && value@.wf() {
                lemma_any_newline_push(before.values, value@);
            }
        }
        Ok(())
    }

    /// Takes the element at `index` out of the array. The closing region
    /// (`trailing`, `trailing_comma`) is not touched; `newlines` tells of the
    /// elements that are left.
    pub fn remove(&mut self, index: usize) -> (r: Option<Value>)
        ensures
            index < old(self)@.values.len() ==> r.is_some() && r.unwrap()@ == old(
                self,
            )@.values[index as int] && final(self)@ == old(self)@.remove(index as int),
            index >= old(self)@.values.len() ==> r.is_none() && final(self)@ == old(self)@,
            old(self)@.wf() ==> final(self)@.wf(),
    {
        if index < self.values.len() {
            let v = self.values.remove(index);
            self.newlines = values_have_newline(&self.values);
            proof {
                assert(final(self)@.values =~= old(self)@.values.remove(index as int));
                if old(self)@.wf() {
                    assert forall|i: int| 0 <= i < final(self)@.values.len() implies (
                    #[trigger] final(self)@.values[i]).kind() == final(self)@.values[0].kind()
                        && final(self)@.values[i].wf() by {
                        let k = if i < index { i } else { i + 1 };
                        assert(final(self)@.values[i] == old(self)@.values[k]);
                        let k0: int = if 0 < index { 0 } else { 1 };
                        assert(final(self)@.values[0] == old(self)@.values[k0]);
                    }
                }
            }
            Some(v)
        } else {
            None
        }
    }

    /// Lays the array out anew, on one line or on several. The elements stay
    /// as they are but for the whitespace and comments around them, which
    /// are replaced.
    pub fn fmt(&mut self, multiline: bool)
        ensures
            final(self)@ == old(self)@.formatted(multiline),
            old(self)@.wf() ==> final(self)@.wf(),
    {
        let ghost before = self@;
        let n = self.values.len();
        let mut i: usize = 0;
        while i < n
            invariant
                0 <= i <= n,
                n == self.values@.len(),
                n == before.values.len(),
                self.trailing@ == before.trailing,
                self.decor@ == before.decor,
                forall|j: int|
                    0 <= j < i ==> (#[trigger] self.values@[j])@ == before.values[j].decorated(
                        element_decor(j == 0, multiline),
                    ),
                forall|j: int| i <= j < n ==> (#[trigger] self.values@[j])@ == before.values[j],
            decreases n - i,
        {
            let d = make_element_decor(i == 0, multiline);
            let value = &mut self.values[i];
            value.decorate(d);
            i += 1;
        }
        let broken = multiline && n > 0;
        let mut trailing: Vec<u8> = Vec::new();
        if broken {
            trailing.push(LF);
        }
        self.trailing = trailing;
        self.trailing_comma = broken;
        self.newlines = broken;
        proof {
            let want = before.formatted(multiline);
            assert(self@.values =~= want.values);
            assert(self@.trailing =~= want.trailing);
            if before.wf() {
                lemma_formatted_wf(before, multiline);
            }
        }
    }
}

/// Whether one more value brings a line break.
pub proof fn lemma_any_newline_push(vs: Seq<ValueView>, v: ValueView)
    ensures
        any_newline(vs.push(v)) == (any_newline(vs) || v.decor().has_newline()),
{
    let now = vs.push(v);
    if any_newline(vs) {
        let w = choose|w: int| 0 <= w < vs.len() && (#[trigger] vs[w]).decor().has_newline();
        assert(now[w].decor().has_newline());
    }
    if v.decor().has_newline() {
        assert(now[vs.len() as int].decor().has_newline());
    }
    if any_newline(now) {
        let w = choose|w: int| 0 <= w < now.len() && (#[trigger] now[w]).decor().has_newline();
        if w < vs.len() {
            assert(vs[w].decor().has_newline());
        }
    }
}

/// Laying out a well-formed array leaves it well formed.
pub proof fn lemma_formatted_wf(a: ArrayView, multiline: bool)
    requires
        a.wf(),
    ensures
        a.formatted(multiline).wf(),
{
    let f = a.formatted(multiline);
    assert(f.newlines == any_newline(f.values)) by {
        if multiline && a.values.len() > 0 {
            assert(line_indent()[0] == LF);
            assert(f.values[0].decor().has_newline());
        } else {
            assert forall|i: int| 0 <= i < f.values.len() implies !(
            #[trigger] f.values[i]).decor().has_newline() by {
                assert(f.values[i].decor() == element_decor(i == 0, multiline));
            }
        }
    }
    assert forall|i: int| 0 <= i < f.values.len() implies (#[trigger] f.values[i]).kind()
        == f.values[0].kind() && f.values[i].wf() by {
        assert(a.values[i].kind() == a.values[0].kind());
        assert(a.values[i].wf());
    }
}

} // verus!

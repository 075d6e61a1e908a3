//! Arrays: `[`, values separated by commas, `]`.

use crate::decor::{Decor, DecorView};
use crate::errors::{CustomError, CustomErrorView};
use crate::text::copy_bytes;
use crate::value::{any_newline, values_view, Array, ArrayView, Value, ValueView};
use vstd::prelude::*;

verus! {

/// `j` is the first position in `vs` whose tag differs from that of the first
/// element.
pub open spec fn mismatch_at(vs: Seq<ValueView>, j: int) -> bool {
    &&& 0 < j < vs.len()
    &&& vs[j].kind() != vs[0].kind()
    &&& forall|k: int| 0 <= k < j ==> (#[trigger] vs[k]).kind() == vs[0].kind()
}

/// The array that holds `vs`, with the given closing region and no decoration.
pub open spec fn array_of(vs: Seq<ValueView>, comma: bool, trailing: Seq<u8>) -> ArrayView {
    ArrayView {
        values: vs,
        trailing,
        trailing_comma: comma,
        newlines: any_newline(vs),
        decor: DecorView::empty(),
    }
}

/// The array that holds `vs` if they are of one kind; else the error that
/// names the kind of the first element and the first kind that differs.
pub open spec fn spec_array_from(vs: Seq<ValueView>, comma: bool, trailing: Seq<u8>) -> Result<
    ArrayView,
    CustomErrorView,
> {
    if array_of(vs, comma, trailing).homogeneous() {
        Ok(array_of(vs, comma, trailing))
    } else {
        let j = choose|j: int| mismatch_at(vs, j);
        Err(CustomErrorView::MixedArrayType { got: vs[j].kind(), expected: vs[0].kind() })
    }
}

/// At most one position is the first mismatch.
pub proof fn lemma_mismatch_unique(vs: Seq<ValueView>, i: int, j: int)
    requires
        mismatch_at(vs, i),
        mismatch_at(vs, j),
    ensures
        i == j,
{
    if i < j {
        assert(vs[i].kind() == vs[0].kind());
    }
    if j < i {
        assert(vs[j].kind() == vs[0].kind());
    }
}

/// Builds an array from parsed values and the text before the closing
/// bracket, appending the values one by one. The first value whose kind
/// differs from that of the first one stops the construction.
pub fn array_from_vec(v: Vec<Value>, comma: bool, trailing: &[u8]) -> (r: Result<
    Array,
    CustomError,
>)
    ensures
        match r {
            Ok(a) => {
                &&& array_of(values_view(v@), comma, trailing@).homogeneous()
                &&& a@ == array_of(values_view(v@), comma, trailing@)
            },
            Err(e) => exists|j: int|
                {
                    &&& #[trigger] mismatch_at(values_view(v@), j)
                    &&& e@ == (CustomErrorView::MixedArrayType {
                        got: values_view(v@)[j].kind(),
                        expected: values_view(v@)[0].kind(),
                    })
                },
        },
        r.is_ok() && (forall|i: int| 0 <= i < v@.len() ==> (#[trigger] v@[i])@.wf())
            ==> r.unwrap()@.wf(),
        match r {
            Ok(a) => spec_array_from(values_view(v@), comma, trailing@) == Ok::<
                ArrayView,
                CustomErrorView,
            >(a@),
            Err(e) => spec_array_from(values_view(v@), comma, trailing@) == Err::<
                ArrayView,
                CustomErrorView,
            >(e@),
        },
{
    let ghost vs = values_view(v@);
    let mut array = Array {
        trailing_comma: comma,
        trailing: copy_bytes(trailing),
        values: Vec::new(),
        newlines: false,
        decor: Decor::empty(),
    };
    proof {
        assert(array@.values =~= vs.subrange(0, 0));
    }
    for val in it: v.into_iter()
        invariant
            it.seq() == v@,
            vs == values_view(v@),
            array@ == array_of(vs.subrange(0, it.index() as int), comma, trailing@),
            array@.homogeneous(),
    {
        let ghost i = it.index() as int;
        let ghost before = array@;
        assert(val@ == vs[i]);
        match array.push(val) {
            Ok(()) => {
                proof {
                    assert(vs.subrange(0, i + 1) =~= vs.subrange(0, i).push(vs[i]));
                    let now = vs.subrange(0, i + 1);
                    if any_newline(vs.subrange(0, i)) {
                        let w = choose|w: int|
                            0 <= w < i && (#[trigger] vs.subrange(0, i)[w]).decor().has_newline();
                        assert(now[w].decor().has_newline());
                    }
                    if vs[i].decor().has_newline() {
                        assert(now[i].decor().has_newline());
                    }
                    if any_newline(now) {
                        let w = choose|w: int| 0 <= w < i + 1 && (#[trigger] now[w]).decor().has_newline();
                        if w < i {
                            assert(vs.subrange(0, i)[w].decor().has_newline());
                        }
                    }
                    assert forall|k: int| 0 <= k < now.len() implies (#[trigger] now[k]).kind()
                        == now[0].kind() by {
                        if k < i {
                            assert(before.values[k].kind() == before.values[0].kind());
                        }
                    }
                }
            },
            Err(e) => {
                proof {
                    assert forall|k: int| 0 <= k < i implies (#[trigger] vs[k]).kind()
                        == vs[0].kind() by {
                        assert(before.values[k].kind() == before.values[0].kind());
                    }
                    assert(mismatch_at(vs, i));
                    assert(vs[i].kind() != vs[0].kind());
                    assert(!array_of(vs, comma, trailing@).homogeneous());
                    let j = choose|j: int| mismatch_at(vs, j);
                    lemma_mismatch_unique(vs, i, j);
                }
                return Err(e);
            },
        }
    }
    proof {
        assert(vs.subrange(0, vs.len() as int) =~= vs);
        if forall|i: int| 0 <= i < v@.len() ==> (#[trigger] v@[i])@.wf() {
            assert forall|i: int| 0 <= i < vs.len() implies (#[trigger] vs[i]).wf() by {
                assert(v@[i]@.wf());
            }
        }
    }
    Ok(array)
}

} // verus!

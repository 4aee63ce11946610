//! Tests of whether arrays agree with themselves.
use vstd::prelude::*;

use crate::joins::all_valid;
use crate::model::{first_with, layout_valid, rising, sound, valid, Shape};
use crate::outside::{contents, field_ids, models, AnyArray};
use crate::shapes::shape_of;

verus! {

/// The index of the child that each slot of a union lies in, or the number of children for a slot
/// that lies in none.
pub(crate) fn slot_children(array: &AnyArray) -> (r: Vec<usize>)
    requires
        contents(*array).data_type.shape is Union,
    ensures
        r@.len() == contents(*array).ints.len(),
        forall|i: int| 0 <= i < r@.len() ==> #[trigger] r@[i] == contents(*array).ints[i],
{
    let ghost m = contents(*array);
    let ids = array.slot_ids();
    let fields = field_ids(&array.data_type());
    let mut out: Vec<usize> = Vec::with_capacity(ids.len());
    let mut i: usize = 0;
    while i < ids.len()
        invariant
            0 <= i <= ids@.len(),
            m == contents(*array),
            ids@.len() == m.ints.len(),
            forall|k: int|
                0 <= k < ids@.len() ==> m.ints[k] == first_with(
                    m.data_type.fields,
                    #[trigger] ids@[k] as int,
                    0,
                ),
            fields@.len() == m.data_type.fields.len(),
            forall|k: int|
                0 <= k < fields@.len() ==> #[trigger] fields@[k] == m.data_type.fields[k].id,
            out@.len() == i,
            forall|k: int| 0 <= k < i ==> #[trigger] out@[k] == m.ints[k],
        decreases ids@.len() - i,
    {
        let id: i8 = ids[i];
        let mut j: usize = 0;
        while j < fields.len() && fields[j] != id
            invariant
                0 <= j <= fields@.len(),
                fields@.len() == m.data_type.fields.len(),
                forall|k: int|
                    0 <= k < fields@.len() ==> #[trigger] fields@[k] == m.data_type.fields[k].id,
                first_with(m.data_type.fields, id as int, 0) == first_with(
                    m.data_type.fields,
                    id as int,
                    j as int,
                ),
            decreases fields@.len() - j,
        {
            assert(fields@[j as int] == m.data_type.fields[j as int].id);
            j += 1;
        }
        proof {
            if j < fields@.len() {
                assert(fields@[j as int] == m.data_type.fields[j as int].id);
            }
            assert(m.ints[i as int] == first_with(m.data_type.fields, ids@[i as int] as int, 0));
        }
        out.push(j);
        i += 1;
    }
    out
}

/// Whether the run ends of a run-end encoded array agree with its values and its length.
fn runs_agree(array: &AnyArray) -> (r: bool)
    requires
        sound(contents(*array)),
        contents(*array).data_type.shape is Runs,
    ensures
        r == layout_valid(contents(*array)),
{
    let ghost m = contents(*array);
    let ends = array.run_ends();
    let values = array.run_values();
    if ends.len() != values.len() {
        return false;
    }
    let mut i: usize = 0;
    while i < ends.len()
        invariant
            0 <= i <= ends@.len(),
            m == contents(*array),
            ends@.len() == m.ints.len(),
            forall|k: int| 0 <= k < ends@.len() ==> #[trigger] ends@[k] == m.ints[k],
            m.data_type.shape is Runs,
            rising(m.ints.take(i as int)),
        decreases ends@.len() - i,
    {
        let ghost front = m.ints.take(i as int);
        assert(ends@[i as int] == m.ints[i as int]);
        if ends[i] < 0 {
            assert(!rising(m.ints));
            return false;
        }
        if i > 0 {
            assert(ends@[i - 1] == m.ints[i - 1]);
            if ends[i - 1] >= ends[i] {
                assert(!rising(m.ints));
                return false;
            }
        }
        proof {
            let more = m.ints.take(i + 1);
            assert forall|k: int| 0 <= k < more.len() implies 0 <= #[trigger] more[k] by {
                if k < i {
                    assert(more[k] == front[k]);
                }
            }
            assert forall|k: int, q: int| 0 <= k < q < more.len() implies #[trigger] more[k]
                < #[trigger] more[q] by {
                assert(more[k] == front[k]);
                if q < i {
                    assert(more[q] == front[q]);
                } else if k < i - 1 {
                    assert(front[k] < front[i - 1]);
                }
            }
        }
        i += 1;
    }
    assert(m.ints.take(i as int) =~= m.ints);
    let len: usize = array.len();
    if len == 0 {
        return true;
    }
    if ends.len() == 0 {
        return false;
    }
    let last: i64 = ends[ends.len() - 1];
    array.run_offset() as i128 + len as i128 <= last as i128
}

/// Whether the slots of a union lie in its children.
fn slots_agree(array: &AnyArray, dense: bool) -> (r: bool)
    requires
        sound(contents(*array)),
        contents(*array).data_type.shape == (Shape::Union { dense }),
    ensures
        r == layout_valid(contents(*array)),
{
    let ghost m = contents(*array);
    let len: usize = array.len();
    let width: usize = array.num_columns();
    let homes = slot_children(array);
    let offsets: Vec<i32> = if dense {
        array.slot_offsets()
    } else {
        Vec::new()
    };
    let mut i: usize = 0;
    while i < len
        invariant
            0 <= i <= len,
            m == contents(*array),
            sound(m),
            m.data_type.shape == (Shape::Union { dense }),
            len == m.len,
            width == m.children.len(),
            homes@.len() == m.ints.len(),
            forall|k: int| 0 <= k < homes@.len() ==> #[trigger] homes@[k] == m.ints[k],
            dense ==> offsets@.len() == m.offsets.len() && forall|k: int|
                0 <= k < offsets@.len() ==> #[trigger] offsets@[k] == m.offsets[k],
            forall|k: int| 0 <= k < i ==> 0 <= #[trigger] m.ints[k] < m.children.len(),
            dense ==> forall|k: int|
                0 <= k < i ==> 0 <= #[trigger] m.offsets[k] < m.children[m.ints[k]].len,
        decreases len - i,
    {
        let home: usize = homes[i];
        assert(home == m.ints[i as int]);
        if home >= width {
            return false;
        }
        if dense {
            let offset: i32 = offsets[i];
            assert(offset == m.offsets[i as int]);
            if offset < 0 || offset as i128 >= array.child(home).len() as i128 {
                return false;
            }
        }
        i += 1;
    }
    if dense {
        return true;
    }
    let mut j: usize = 0;
    while j < width
        invariant
            0 <= j <= width,
            m == contents(*array),
            m.data_type.shape == (Shape::Union { dense: false }),
            len == m.len,
            width == m.children.len(),
            forall|k: int| 0 <= k < j ==> (#[trigger] m.children[k]).len == m.len,
        decreases width - j,
    {
        if array.child(j).len() != len {
            return false;
        }
        j += 1;
    }
    true
}

/// Whether an array agrees with itself.
pub(crate) fn agrees(array: &AnyArray) -> (r: bool)
    ensures
        r == valid(contents(*array)),
    decreases contents(*array),
{
    let ghost m = contents(*array);
    let data_type = array.data_type();
    assert(sound(m));
    match shape_of(&data_type) {
        Shape::Runs => {
            if !runs_agree(array) {
                return false;
            }
            let values = array.run_values();
            assert(contents(values) == m.children[0]);
            return agrees(&values);
        },
        Shape::Union { dense } => {
            if !slots_agree(array, dense) {
                return false;
            }
        },
        _ => {},
    }
    let width: usize = array.num_columns();
    let mut j: usize = 0;
    while j < width
        invariant
            0 <= j <= width,
            m == contents(*array),
            m.data_type.shape !is Runs,
            width == m.children.len(),
            forall|k: int| 0 <= k < j ==> valid(#[trigger] m.children[k]),
        decreases width - j,
    {
        let child = array.child(j);
        assert(contents(child) == m.children[j as int]);
        if !agrees(&child) {
            return false;
        }
        j += 1;
    }
    true
}

/// Whether every array agrees with itself.
pub(crate) fn all_agree(arrays: &[AnyArray]) -> (r: bool)
    ensures
        r == all_valid(models(arrays@)),
{
    let ghost ms = models(arrays@);
    let mut i: usize = 0;
    while i < arrays.len()
        invariant
            0 <= i <= arrays@.len(),
            ms == models(arrays@),
            forall|k: int| 0 <= k < i ==> valid(#[trigger] ms[k]),
        decreases arrays@.len() - i,
    {
        assert(ms[i as int] == contents(arrays@[i as int]));
        if !agrees(&arrays[i]) {
            return false;
        }
        i += 1;
    }
    true
}

} // verus!

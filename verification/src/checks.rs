//! Tests of the limits that [`crate::limits`] states.
use arrow_schema::DataType;
use vstd::prelude::*;

use crate::capacity::{
    children, has_room, lemma_children, lemma_extent_bytes, lemma_extent_prefix, total_len,
};
use crate::joins::{all_valid, lemma_take_step, lemma_total_prefix, one_type};
use crate::kernels::lemma_buffers_prefix;
use crate::limits::{
    buffers_total, bytes_fit, child_models, copies_fit, copyable, distinct_ids, extent,
    extent_total, fits, fixed_models, keys_fit, picked, picked_models, room_fits, run_models,
    sources_fit, typed_children, used_models, viewless,
};
use crate::model::{
    end_width, integer_max, offset_max, sliced, total, valid, ArrayModel, Primitive, Shape,
    TypeModel,
};
use crate::outside::{
    contents, field_ids, keys_read, models, same_type, type_model, types_are, AnyArray,
};
use crate::parts::{
    keys_of, lemma_run_models, lemma_used_type, list_parts, lists_of, offsets_of, run_parts,
};
use crate::shapes::{field_types, index_kind, max_of, shape_of};
use crate::slices::lemma_sliced_valid;
use crate::validity::slot_children;

verus! {

/// The number of slots of the arrays together, if it can be counted.
pub fn checked_total(arrays: &[AnyArray]) -> (r: Option<usize>)
    ensures
        r matches Some(n) ==> n == total(models(arrays@)),
        r is None ==> total(models(arrays@)) > usize::MAX,
{
    let ghost ms = models(arrays@);
    let mut len: usize = 0;
    let mut i: usize = 0;
    while i < arrays.len()
        invariant
            0 <= i <= arrays@.len(),
            ms == models(arrays@),
            len == total(ms.take(i as int)),
        decreases arrays@.len() - i,
    {
        let n: usize = arrays[i].len();
        proof {
            lemma_take_step(ms, i as int);
            lemma_total_prefix(ms, i + 1);
        }
        match len.checked_add(n) {
            Some(more) => {
                len = more;
            },
            None => {
                return None;
            },
        }
        i += 1;
    }
    assert(ms.take(i as int) =~= ms);
    Some(len)
}

/// The greatest offset of an offset type.
fn max_offset(large: bool) -> (r: i128)
    ensures
        r == offset_max(large),
{
    if large {
        i64::MAX as i128
    } else {
        i32::MAX as i128
    }
}

/// Whether the bytes of arrays of strings or byte strings are no more than `limit`.
fn check_extent(arrays: &[AnyArray], large: bool, limit: i128) -> (r: bool)
    requires
        forall|i: int|
            0 <= i < arrays@.len() ==> contents(#[trigger] arrays@[i]).data_type.shape == (
            Shape::Bytes { large }),
        all_valid(models(arrays@)),
        0 <= limit <= u64::MAX,
    ensures
        r == (extent_total(models(arrays@)) <= limit),
{
    let ghost ms = models(arrays@);
    let mut bytes: i128 = 0;
    let mut i: usize = 0;
    assert forall|k: int| 0 <= k < ms.len() implies 0 <= extent(#[trigger] ms[k]) by {
        assert(contents(arrays@[k]).data_type.shape == (Shape::Bytes { large }));
        assert(valid(ms[k]));
        lemma_extent_bytes(ms[k]);
    }
    while i < arrays.len()
        invariant
            0 <= i <= arrays@.len(),
            ms == models(arrays@),
            forall|k: int|
                0 <= k < arrays@.len() ==> contents(#[trigger] arrays@[k]).data_type.shape == (
                Shape::Bytes { large }),
            forall|k: int| 0 <= k < ms.len() ==> 0 <= extent(#[trigger] ms[k]),
            all_valid(ms),
            bytes == extent_total(ms.take(i as int)),
            0 <= bytes <= limit <= u64::MAX,
        decreases arrays@.len() - i,
    {
        let array = &arrays[i];
        proof {
            assert(ms[i as int] == contents(arrays@[i as int]));
            lemma_extent_bytes(ms[i as int]);
            lemma_take_step(ms, i as int);
            lemma_extent_prefix(ms, i + 1);
        }
        let offsets = offsets_of(array, large);
        let first: i64 = offsets[0];
        let last: i64 = offsets[offsets.len() - 1];
        assert(first == ms[i as int].offsets[0]);
        assert(last == ms[i as int].offsets.last());
        bytes += last as i128 - first as i128;
        if bytes > limit {
            return false;
        }
        i += 1;
    }
    assert(ms.take(i as int) =~= ms);
    true
}

/// Whether offsets can number the bytes of arrays of strings or byte strings.
pub(crate) fn check_bytes(arrays: &[AnyArray], large: bool) -> (r: bool)
    requires
        forall|i: int|
            0 <= i < arrays@.len() ==> contents(#[trigger] arrays@[i]).data_type.shape == (
            Shape::Bytes { large }),
        all_valid(models(arrays@)),
    ensures
        r == bytes_fit(large, models(arrays@)),
{
    check_extent(arrays, large, max_offset(large)) && check_extent(
        arrays,
        large,
        usize::MAX as i128,
    )
}

/// Whether the room that the arrays need can be counted.
pub fn can_count_room(arrays: &[AnyArray]) -> (r: bool)
    requires
        all_valid(models(arrays@)),
        one_type(models(arrays@)),
        arrays@.len() > 0,
    ensures
        r == room_fits(contents(arrays@[0]).data_type, models(arrays@)),
    decreases contents(arrays@[0]).data_type,
{
    let ghost ms = models(arrays@);
    let ghost t = ms[0].data_type;
    assert(ms[0] == contents(arrays@[0]));
    assert forall|i: int| 0 <= i < arrays@.len() implies valid(contents(#[trigger] arrays@[i]))
        && contents(arrays@[i]).data_type == t by {
        assert(valid(ms[i]));
        assert(ms[i].data_type == t);
    }
    if checked_total(arrays).is_none() {
        return false;
    }
    match shape_of(&arrays[0].data_type()) {
        Shape::Bytes { large } => check_extent(arrays, large, usize::MAX as i128),
        Shape::FixedList(_) => {
            proof {
                lemma_children(ms, 0);
            }
            let values = children(arrays, 0);
            assert(models(values@).len() == ms.len());
            assert(models(values@)[0] == child_models(ms, 0)[0]);
            match shape_of(&values[0].data_type()) {
                Shape::Bytes { .. } => can_count_room(values.as_slice()),
                Shape::FixedList(_) => can_count_room(values.as_slice()),
                _ => true,
            }
        },
        _ => true,
    }
}

/// The items of each array of lists of fixed size that lie in its slots.
pub(crate) fn fixed_parts(arrays: &[AnyArray], size: i32) -> (r: Vec<AnyArray>)
    requires
        all_valid(models(arrays@)),
        forall|i: int|
            0 <= i < arrays@.len() ==> contents(#[trigger] arrays@[i]).data_type.shape
                == Shape::FixedList(size),
    ensures
        models(r@) == fixed_models(models(arrays@), size as int),
        all_valid(models(r@)),
        forall|i: int|
            0 <= i < r@.len() ==> contents(#[trigger] r@[i]).data_type == contents(
                arrays@[i],
            ).data_type.fields[0].data_type,
{
    let ghost ms = models(arrays@);
    let mut out: Vec<AnyArray> = Vec::with_capacity(arrays.len());
    let mut i: usize = 0;
    while i < arrays.len()
        invariant
            0 <= i <= arrays@.len(),
            ms == models(arrays@),
            all_valid(ms),
            forall|k: int|
                0 <= k < arrays@.len() ==> contents(#[trigger] arrays@[k]).data_type.shape
                    == Shape::FixedList(size),
            out@.len() == i,
            forall|k: int|
                0 <= k < i ==> {
                    &&& contents(#[trigger] out@[k]) == sliced(
                        ms[k].children[0],
                        0,
                        ms[k].len * size,
                    )
                    &&& valid(contents(out@[k]))
                    &&& contents(out@[k]).data_type == ms[k].data_type.fields[0].data_type
                },
        decreases arrays@.len() - i,
    {
        let array = &arrays[i];
        let ghost m = ms[i as int];
        assert(m == contents(arrays@[i as int]));
        assert(valid(m));
        let child = array.child(0);
        let child_len: usize = child.len();
        let len: usize = array.len();
        proof {
            assert(0 <= m.len * size) by (nonlinear_arith)
                requires
                    m.len >= 0,
                    size >= 0,
            ;
            lemma_sliced_valid(m.children[0], 0, m.len * size);
        }
        out.push(child.slice(0, len * size as usize));
        i += 1;
    }
    proof {
        assert(models(out@) =~= fixed_models(ms, size as int));
        assert forall|k: int| 0 <= k < models(out@).len() implies valid(
            #[trigger] models(out@)[k],
        ) by {
            assert(contents(out@[k]) == models(out@)[k]);
        }
    }
    out
}

/// Whether view buffers can be numbered through.
fn check_buffers(arrays: &[AnyArray]) -> (r: bool)
    requires
        forall|i: int|
            0 <= i < arrays@.len() ==> contents(#[trigger] arrays@[i]).data_type.shape is View,
    ensures
        r == (buffers_total(models(arrays@)) <= u32::MAX),
{
    let ghost ms = models(arrays@);
    let mut buffers: i128 = 0;
    let mut i: usize = 0;
    while i < arrays.len()
        invariant
            0 <= i <= arrays@.len(),
            ms == models(arrays@),
            forall|k: int|
                0 <= k < arrays@.len() ==> contents(#[trigger] arrays@[k]).data_type.shape is View,
            buffers == buffers_total(ms.take(i as int)),
            0 <= buffers <= u32::MAX,
        decreases arrays@.len() - i,
    {
        proof {
            assert(ms[i as int] == contents(arrays@[i as int]));
            lemma_take_step(ms, i as int);
            lemma_buffers_prefix(ms, i + 1);
        }
        let parts: usize = arrays[i].view_buffers();
        buffers += parts as i128 - 1;
        if buffers > u32::MAX as i128 {
            return false;
        }
        i += 1;
    }
    assert(ms.take(i as int) =~= ms);
    true
}

/// The slots of the `j`-th child that a dense union refers to are valid and of the child's type.
proof fn lemma_picked(m: ArrayModel, j: int, n: int)
    requires
        valid(m),
        m.data_type.shape == (Shape::Union { dense: true }),
        0 <= j < m.data_type.fields.len(),
        m.children[j].data_type == m.data_type.fields[j].data_type,
        0 <= n <= m.len,
    ensures
        forall|k: int|
            0 <= k < picked(m, j, n).len() ==> valid(#[trigger] picked(m, j, n)[k]) && picked(
                m,
                j,
                n,
            )[k].data_type == m.data_type.fields[j].data_type,
    decreases n,
{
    if n > 0 {
        lemma_picked(m, j, n - 1);
        if m.ints[n - 1] == j {
            assert(valid(m.children[j]));
            assert(0 <= m.offsets[n - 1] < m.children[j].len);
            lemma_sliced_valid(m.children[j], m.offsets[n - 1], 1);
        }
    }
}

/// The slots of the `j`-th child that dense unions refer to are valid arrays of one type.
proof fn lemma_picked_models(ms: Seq<ArrayModel>, j: int, t: TypeModel)
    requires
        all_valid(ms),
        forall|i: int| 0 <= i < ms.len() ==> (#[trigger] ms[i]).data_type == t,
        t.shape == (Shape::Union { dense: true }),
        0 <= j < t.fields.len(),
        typed_children(t, ms),
    ensures
        all_valid(picked_models(ms, j)),
        forall|k: int|
            0 <= k < picked_models(ms, j).len() ==> (#[trigger] picked_models(ms, j)[k]).data_type
                == t.fields[j].data_type,
    decreases ms.len(),
{
    if ms.len() > 0 {
        let front = ms.drop_last();
        let last = ms[ms.len() - 1];
        assert(valid(last));
        assert forall|i: int| 0 <= i < front.len() implies valid(#[trigger] front[i])
            && front[i].data_type == t by {
            assert(front[i] == ms[i]);
        }
        assert(typed_children(t, front)) by {
            assert forall|i: int, q: int|
                0 <= i < front.len() && 0 <= q < t.fields.len() implies (
            #[trigger] front[i].children[q]).data_type == t.fields[q].data_type by {
                assert(ms[i].children[q].data_type == t.fields[q].data_type);
            }
        }
        lemma_picked_models(front, j, t);
        assert(ms[ms.len() - 1].children[j].data_type == t.fields[j].data_type);
        lemma_picked(last, j, last.len as int);
    }
}

/// The slots of the `j`-th child that dense unions refer to, each an array of its own.
fn picked_parts(arrays: &[AnyArray], j: usize) -> (r: Vec<AnyArray>)
    requires
        all_valid(models(arrays@)),
        one_type(models(arrays@)),
        arrays@.len() > 0,
        contents(arrays@[0]).data_type.shape == (Shape::Union { dense: true }),
        j < contents(arrays@[0]).data_type.fields.len(),
    ensures
        models(r@) == picked_models(models(arrays@), j as int),
{
    let ghost ms = models(arrays@);
    let mut out: Vec<AnyArray> = Vec::new();
    let mut i: usize = 0;
    assert(ms.take(0) =~= Seq::empty());
    assert(models(out@) =~= picked_models(ms.take(0), j as int));
    while i < arrays.len()
        invariant
            0 <= i <= arrays@.len(),
            ms == models(arrays@),
            all_valid(ms),
            one_type(ms),
            ms.len() > 0,
            ms[0].data_type.shape == (Shape::Union { dense: true }),
            j < ms[0].data_type.fields.len(),
            models(out@) == picked_models(ms.take(i as int), j as int),
        decreases arrays@.len() - i,
    {
        let array = &arrays[i];
        let ghost m = ms[i as int];
        proof {
            assert(m == contents(arrays@[i as int]));
            assert(valid(m));
            assert(m.data_type == ms[0].data_type);
            lemma_take_step(ms, i as int);
        }
        let homes = slot_children(array);
        let offsets = array.slot_offsets();
        let child = array.child(j);
        let len: usize = array.len();
        let ghost before = models(out@);
        let mut k: usize = 0;
        assert(models(out@) =~= before + picked(m, j as int, 0));
        while k < len
            invariant
                0 <= k <= len,
                len == m.len,
                m == contents(*array),
                valid(m),
                m.data_type.shape == (Shape::Union { dense: true }),
                j < m.data_type.fields.len(),
                contents(child) == m.children[j as int],
                homes@.len() == m.ints.len(),
                forall|q: int| 0 <= q < homes@.len() ==> #[trigger] homes@[q] == m.ints[q],
                offsets@.len() == m.offsets.len(),
                forall|q: int| 0 <= q < offsets@.len() ==> #[trigger] offsets@[q] == m.offsets[q],
                models(out@) == before + picked(m, j as int, k as int),
            decreases len - k,
        {
            if homes[k] == j {
                let offset: i32 = offsets[k];
                assert(0 <= m.offsets[k as int] < m.children[m.ints[k as int]].len);
                let ghost here = out@;
                out.push(child.slice(offset as usize, 1));
                assert(models(out@) =~= models(here).push(
                    sliced(m.children[j as int], m.offsets[k as int], 1),
                ));
            }
            assert(models(out@) =~= before + picked(m, j as int, k + 1));
            k += 1;
        }
        i += 1;
    }
    assert(ms.take(i as int) =~= ms);
    out
}

/// Whether the arrays can be copied one after the other.
pub fn can_copy(arrays: &[AnyArray]) -> (r: bool)
    requires
        all_valid(models(arrays@)),
        one_type(models(arrays@)),
        arrays@.len() > 0,
    ensures
        r == copies_fit(contents(arrays@[0]).data_type, models(arrays@)),
    decreases contents(arrays@[0]).data_type, 1int,
{
    let ghost ms = models(arrays@);
    let ghost t = ms[0].data_type;
    assert(ms[0] == contents(arrays@[0]));
    assert forall|i: int| 0 <= i < arrays@.len() implies valid(contents(#[trigger] arrays@[i]))
        && contents(arrays@[i]).data_type == t by {
        assert(valid(ms[i]));
        assert(ms[i].data_type == t);
    }
    let slots: usize = match checked_total(arrays) {
        Some(n) => n,
        None => {
            return false;
        },
    };
    match shape_of(&arrays[0].data_type()) {
        Shape::Bytes { large } => check_bytes(arrays, large),
        Shape::List { large } => check_list_copies(arrays, large),
        Shape::MapEntries => check_list_copies(arrays, false),
        Shape::FixedList(size) => {
            let values = fixed_parts(arrays, size);
            proof {
                assert(models(values@).len() == ms.len());
                assert forall|i: int| 0 <= i < ms.len() implies (#[trigger] models(
                    values@,
                )[i]).data_type == t.fields[0].data_type by {
                    assert(models(values@)[i] == contents(values@[i]));
                }
            }
            can_copy(values.as_slice())
        },
        Shape::Struct => check_column_copies(arrays, false),
        Shape::Union { dense } => check_column_copies(arrays, dense),
        Shape::Runs => {
            let kind = index_kind(&arrays[0].data_type());
            if slots as i128 > max_of(kind) {
                return false;
            }
            proof {
                lemma_run_models(ms);
            }
            let values = run_parts(arrays);
            assert(models(values@) == run_models(ms));
            if values.len() == 0 {
                assert(models(values@).len() == 0);
                assert(copies_fit(t.fields[1].data_type, run_models(ms)));
                true
            } else {
                assert(contents(values@[0]) == run_models(ms)[0]);
                can_copy(values.as_slice())
            }
        },
        Shape::ListView => false,
        _ => true,
    }
}

/// Whether the items of list or map arrays can be copied one after the other.
fn check_list_copies(arrays: &[AnyArray], large: bool) -> (r: bool)
    requires
        all_valid(models(arrays@)),
        one_type(models(arrays@)),
        arrays@.len() > 0,
        contents(arrays@[0]).data_type.shape == (Shape::List { large }) || (contents(
            arrays@[0],
        ).data_type.shape is MapEntries && !large),
    ensures
        r == (total(used_models(models(arrays@))) <= offset_max(large) && copies_fit(
            contents(arrays@[0]).data_type.fields[0].data_type,
            used_models(models(arrays@)),
        )),
    decreases contents(arrays@[0]).data_type, 0int,
{
    let ghost ms = models(arrays@);
    proof {
        assert(valid(ms[0]));
        lemma_used_type(ms);
        assert forall|i: int| 0 <= i < arrays@.len() implies contents(
            #[trigger] arrays@[i],
        ).data_type == ms[0].data_type by {
            assert(ms[i].data_type == ms[0].data_type);
        }
        assert(lists_of(arrays@, large));
    }
    let (values, _lengths) = list_parts(arrays, large);
    assert(contents(values@[0]) == used_models(ms)[0]);
    match checked_total(values.as_slice()) {
        Some(n) => n as i128 <= max_offset(large) && can_copy(values.as_slice()),
        None => false,
    }
}

/// Whether the children of struct arrays or unions have the types that the fields give them.
fn check_types(arrays: &[AnyArray]) -> (r: bool)
    requires
        all_valid(models(arrays@)),
        one_type(models(arrays@)),
        arrays@.len() > 0,
        contents(arrays@[0]).data_type.shape is Struct || contents(
            arrays@[0],
        ).data_type.shape is Union,
    ensures
        r == typed_children(contents(arrays@[0]).data_type, models(arrays@)),
{
    let ghost ms = models(arrays@);
    let ghost t = ms[0].data_type;
    let types = field_types(&arrays[0].data_type());
    assert(ms[0] == contents(arrays@[0]));
    let mut i: usize = 0;
    while i < arrays.len()
        invariant
            0 <= i <= arrays@.len(),
            ms == models(arrays@),
            ms.len() > 0,
            t == ms[0].data_type,
            t.shape is Struct || t.shape is Union,
            all_valid(ms),
            one_type(ms),
            types_are(types@, t.fields),
            forall|k: int, j: int|
                0 <= k < i && 0 <= j < t.fields.len() ==> (
                #[trigger] ms[k].children[j]).data_type == t.fields[j].data_type,
        decreases arrays@.len() - i,
    {
        proof {
            assert(ms[i as int] == contents(arrays@[i as int]));
            assert(valid(ms[i as int]));
            assert(ms[i as int].data_type == t);
        }
        let mut j: usize = 0;
        while j < types.len()
            invariant
                0 <= j <= types@.len(),
                i < arrays@.len(),
                ms == models(arrays@),
                ms[i as int] == contents(arrays@[i as int]),
                t == ms[0].data_type,
                t.shape is Struct || t.shape is Union,
                ms[i as int].data_type == t,
                ms[i as int].children.len() == t.fields.len(),
                types_are(types@, t.fields),
                forall|q: int|
                    0 <= q < j ==> (#[trigger] ms[i as int].children[q]).data_type
                        == t.fields[q].data_type,
            decreases types@.len() - j,
        {
            let child = arrays[i].child(j);
            assert(type_model(types@[j as int]) == t.fields[j as int].data_type);
            if !same_type(&child.data_type(), &types[j]) {
                assert(ms[i as int].children[j as int].data_type
                    != t.fields[j as int].data_type);
                return false;
            }
            j += 1;
        }
        i += 1;
    }
    true
}

/// Whether the columns of struct arrays or the children of unions can be copied one after the
/// other.
fn check_column_copies(arrays: &[AnyArray], dense: bool) -> (r: bool)
    requires
        all_valid(models(arrays@)),
        one_type(models(arrays@)),
        arrays@.len() > 0,
        total(models(arrays@)) <= usize::MAX,
        (contents(arrays@[0]).data_type.shape is Struct && !dense) || contents(
            arrays@[0],
        ).data_type.shape == (Shape::Union { dense }),
    ensures
        r == copies_fit(contents(arrays@[0]).data_type, models(arrays@)),
    decreases contents(arrays@[0]).data_type, 0int,
{
    let ghost ms = models(arrays@);
    let ghost t = ms[0].data_type;
    assert(ms[0] == contents(arrays@[0]));
    assert(valid(ms[0]));
    assert forall|i: int| 0 <= i < arrays@.len() implies {
        &&& valid(contents(#[trigger] arrays@[i]))
        &&& contents(arrays@[i]).data_type == t
        &&& contents(arrays@[i]).children.len() == t.fields.len()
    } by {
        assert(valid(ms[i]));
        assert(ms[i].data_type == t);
    }
    if !check_types(arrays) {
        return false;
    }
    let width: usize = arrays[0].num_columns();
    let mut j: usize = 0;
    while j < width
        invariant
            0 <= j <= width,
            width == t.fields.len(),
            ms == models(arrays@),
            ms.len() > 0,
            t == ms[0].data_type,
            typed_children(t, ms),
            all_valid(ms),
            one_type(ms),
            total(ms) <= usize::MAX,
            (t.shape is Struct && !dense) || t.shape == (Shape::Union { dense }),
            forall|i: int|
                0 <= i < arrays@.len() ==> {
                    &&& valid(contents(#[trigger] arrays@[i]))
                    &&& contents(arrays@[i]).data_type == t
                    &&& contents(arrays@[i]).children.len() == t.fields.len()
                },
            forall|q: int|
                0 <= q < j ==> {
                    let ft = (#[trigger] t.fields[q]).data_type;
                    if dense {
                        total(picked_models(ms, q)) <= i32::MAX + 1 && copies_fit(
                            ft,
                            picked_models(ms, q),
                        )
                    } else {
                        copies_fit(ft, child_models(ms, q))
                    }
                },
        decreases width - j,
    {
        let ghost field = t.fields[j as int];
        if dense {
            let values = picked_parts(arrays, j);
            assert(models(values@) == picked_models(ms, j as int));
            proof {
                assert forall|i: int| 0 <= i < ms.len() implies (#[trigger] ms[i]).data_type
                    == t by {
                    assert(ms[i] == contents(arrays@[i]));
                }
                lemma_picked_models(ms, j as int, t);
            }
            match checked_total(values.as_slice()) {
                Some(n) => {
                    if n as i128 > i32::MAX as i128 + 1 {
                        return false;
                    }
                },
                None => {
                    return false;
                },
            }
            if values.len() > 0 {
                assert(contents(values@[0]) == picked_models(ms, j as int)[0]);
                if !can_copy(values.as_slice()) {
                    return false;
                }
            }
        } else {
            proof {
                assert forall|i: int| 0 <= i < ms.len() implies 0 <= j < (
                #[trigger] ms[i]).children.len() by {
                    assert(ms[i] == contents(arrays@[i]));
                }
                lemma_children(ms, j as int);
            }
            let values = children(arrays, j);
            assert(models(values@).len() == ms.len());
            assert(models(values@)[0] == child_models(ms, j as int)[0]);
            if !can_copy(values.as_slice()) {
                return false;
            }
        }
        j += 1;
    }
    true
}

/// Whether the keys of dictionary arrays stay in range when the values of the arrays are put one
/// after the other.
fn check_keys(arrays: &[AnyArray], values: &[AnyArray], kind: Primitive) -> (r: bool)
    requires
        all_valid(models(arrays@)),
        one_type(models(arrays@)),
        arrays@.len() > 0,
        contents(arrays@[0]).data_type.shape is Dictionary,
        contents(arrays@[0]).data_type.fields[0].data_type.shape == Shape::Primitive(kind),
        integer_max(kind) > 0,
        models(values@) == child_models(models(arrays@), 0),
    ensures
        r == keys_fit(contents(arrays@[0]).data_type, models(arrays@)),
{
    let ghost ms = models(arrays@);
    let ghost t = ms[0].data_type;
    let ghost vs = child_models(ms, 0);
    assert(ms[0] == contents(arrays@[0]));
    let max: i128 = max_of(kind);
    match checked_total(values) {
        Some(n) => {
            if n as i128 > max {
                return false;
            }
        },
        None => {
            return false;
        },
    }
    let mut base: i128 = 0;
    let mut i: usize = 0;
    assert(vs.take(0) =~= Seq::empty());
    while i < arrays.len()
        invariant
            0 <= i <= arrays@.len(),
            ms == models(arrays@),
            vs == child_models(ms, 0),
            models(values@) == vs,
            ms.len() > 0,
            t == ms[0].data_type,
            all_valid(ms),
            one_type(ms),
            t.shape is Dictionary,
            t.fields[0].data_type.shape == Shape::Primitive(kind),
            max == integer_max(kind),
            0 < max <= u64::MAX,
            total(vs) <= max,
            base == total(vs.take(i as int)),
            forall|q: int, k: int|
                0 <= q < i && 0 <= k < ms[q].ints.len() ==> #[trigger] ms[q].ints[k] + total(
                    vs.take(q),
                ) <= max,
        decreases arrays@.len() - i,
    {
        let ghost m = ms[i as int];
        proof {
            assert(m == contents(arrays@[i as int]));
            assert(valid(m));
            assert(m.data_type == t);
            lemma_take_step(vs, i as int);
            lemma_total_prefix(vs, i + 1);
            assert(models(values@)[i as int] == vs[i as int]);
        }
        let keys = keys_of(&arrays[i], kind);
        let mut k: usize = 0;
        while k < keys.len()
            invariant
                0 <= k <= keys@.len(),
                i < arrays@.len(),
                ms == models(arrays@),
                t == ms[0].data_type,
                t.fields[0].data_type.shape == Shape::Primitive(kind),
                max == integer_max(kind),
                vs == child_models(ms, 0),
                base == total(vs.take(i as int)),
                m == contents(arrays@[i as int]),
                keys_read(arrays@[i as int], keys@),
                0 <= base <= max <= u64::MAX,
                forall|q: int| 0 <= q < k ==> #[trigger] m.ints[q] + base <= max,
            decreases keys@.len() - k,
        {
            assert(keys@[k as int] == m.ints[k as int]);
            if keys[k] > max - base {
                proof {
                    assert(!(m.ints[k as int] + base <= max));
                    assert(ms[i as int].ints[k as int] + total(vs.take(i as int)) > max);
                }
                return false;
            }
            k += 1;
        }
        let len: usize = values[i].len();
        base += len as i128;
        i += 1;
    }
    true
}

/// Whether the arrays can be the sources of one copy.
pub fn can_source(arrays: &[AnyArray]) -> (r: bool)
    requires
        all_valid(models(arrays@)),
        one_type(models(arrays@)),
        arrays@.len() > 0,
    ensures
        r == sources_fit(contents(arrays@[0]).data_type, models(arrays@)),
    decreases contents(arrays@[0]).data_type, 1int,
{
    let ghost ms = models(arrays@);
    let ghost t = ms[0].data_type;
    assert(ms[0] == contents(arrays@[0]));
    assert forall|i: int| 0 <= i < arrays@.len() implies valid(contents(#[trigger] arrays@[i]))
        && contents(arrays@[i]).data_type == t by {
        assert(valid(ms[i]));
        assert(ms[i].data_type == t);
    }
    let data_type = arrays[0].data_type();
    match shape_of(&data_type) {
        Shape::View => check_buffers(arrays),
        Shape::Primitive(kind) => match kind {
            Primitive::Interval => false,
            _ => true,
        },
        Shape::Dictionary => {
            proof {
                lemma_children(ms, 0);
            }
            let values = children(arrays, 0);
            assert(models(values@).len() == ms.len());
            assert(models(values@)[0] == child_models(ms, 0)[0]);
            let kind = index_kind(&data_type);
            check_keys(arrays, values.as_slice(), kind) && has_room(
                &values[0].data_type(),
                total_len(values.as_slice()),
            ) && can_source(values.as_slice()) && can_copy(values.as_slice())
        },
        Shape::Runs => {
            let width: usize = match index_kind(&data_type) {
                Primitive::Int16 => 2,
                Primitive::Int32 => 4,
                _ => 8,
            };
            let mut values: Vec<AnyArray> = Vec::with_capacity(arrays.len());
            let mut i: usize = 0;
            while i < arrays.len()
                invariant
                    0 <= i <= arrays@.len(),
                    ms == models(arrays@),
                    ms.len() > 0,
                    t == ms[0].data_type,
                    t.shape is Runs,
                    forall|k: int|
                        0 <= k < arrays@.len() ==> valid(contents(#[trigger] arrays@[k]))
                            && contents(arrays@[k]).data_type == t,
                    values@.len() == i,
                    width == end_width(t),
                    forall|k: int|
                        0 <= k < i ==> (#[trigger] ms[k]).offset == 0 && ms[k].end_bytes
                            % end_width(t) == 0,
                    forall|k: int|
                        0 <= k < i ==> contents(#[trigger] values@[k]) == ms[k].children[0],
                decreases arrays@.len() - i,
            {
                assert(ms[i as int] == contents(arrays@[i as int]));
                if arrays[i].run_offset() != 0 || arrays[i].run_end_bytes() % width != 0 {
                    return false;
                }
                values.push(arrays[i].run_values());
                i += 1;
            }
            proof {
                assert(models(values@) =~= child_models(ms, 0));
                lemma_children(ms, 0);
                assert(models(values@)[0] == child_models(ms, 0)[0]);
            }
            can_source(values.as_slice())
        },
        Shape::List { .. } => check_child_sources(arrays),
        Shape::MapEntries => check_child_sources(arrays),
        Shape::FixedList(_) => check_child_sources(arrays),
        Shape::Struct => check_column_sources(arrays),
        Shape::Union { .. } => check_column_sources(arrays),
        Shape::ListView => false,
        _ => true,
    }
}

/// Whether the items of lists can be the sources of one copy.
fn check_child_sources(arrays: &[AnyArray]) -> (r: bool)
    requires
        all_valid(models(arrays@)),
        one_type(models(arrays@)),
        arrays@.len() > 0,
        contents(arrays@[0]).data_type.shape is List || contents(
            arrays@[0],
        ).data_type.shape is MapEntries || contents(arrays@[0]).data_type.shape is FixedList,
    ensures
        r == sources_fit(contents(arrays@[0]).data_type, models(arrays@)),
    decreases contents(arrays@[0]).data_type, 0int,
{
    let ghost ms = models(arrays@);
    let ghost t = ms[0].data_type;
    assert(ms[0] == contents(arrays@[0]));
    assert forall|i: int| 0 <= i < arrays@.len() implies valid(contents(#[trigger] arrays@[i]))
        && contents(arrays@[i]).data_type == t by {
        assert(valid(ms[i]));
        assert(ms[i].data_type == t);
    }
    proof {
        lemma_children(ms, 0);
    }
    let values = children(arrays, 0);
    assert(models(values@).len() == ms.len());
    assert(models(values@)[0] == child_models(ms, 0)[0]);
    can_source(values.as_slice())
}

/// Whether the columns of struct arrays or the children of unions can be the sources of one copy.
fn check_column_sources(arrays: &[AnyArray]) -> (r: bool)
    requires
        all_valid(models(arrays@)),
        one_type(models(arrays@)),
        arrays@.len() > 0,
        contents(arrays@[0]).data_type.shape is Struct || contents(
            arrays@[0],
        ).data_type.shape is Union,
    ensures
        r == sources_fit(contents(arrays@[0]).data_type, models(arrays@)),
    decreases contents(arrays@[0]).data_type, 0int,
{
    let ghost ms = models(arrays@);
    let ghost t = ms[0].data_type;
    assert(ms[0] == contents(arrays@[0]));
    assert(valid(ms[0]));
    assert forall|i: int| 0 <= i < arrays@.len() implies {
        &&& valid(contents(#[trigger] arrays@[i]))
        &&& contents(arrays@[i]).data_type == t
        &&& contents(arrays@[i]).children.len() == t.fields.len()
    } by {
        assert(valid(ms[i]));
        assert(ms[i].data_type == t);
    }
    if !check_types(arrays) {
        return false;
    }
    let width: usize = arrays[0].num_columns();
    let mut j: usize = 0;
    while j < width
        invariant
            0 <= j <= width,
            width == t.fields.len(),
            ms == models(arrays@),
            ms.len() > 0,
            t == ms[0].data_type,
            typed_children(t, ms),
            all_valid(ms),
            one_type(ms),
            t.shape is Struct || t.shape is Union,
            forall|i: int|
                0 <= i < arrays@.len() ==> {
                    &&& valid(contents(#[trigger] arrays@[i]))
                    &&& contents(arrays@[i]).data_type == t
                    &&& contents(arrays@[i]).children.len() == t.fields.len()
                },
            forall|q: int|
                0 <= q < j ==> sources_fit(
                    (#[trigger] t.fields[q]).data_type,
                    child_models(ms, q),
                ),
        decreases width - j,
    {
        let ghost field = t.fields[j as int];
        proof {
            assert forall|i: int| 0 <= i < ms.len() implies 0 <= j < (
            #[trigger] ms[i]).children.len() by {
                assert(ms[i] == contents(arrays@[i]));
            }
            lemma_children(ms, j as int);
        }
        let values = children(arrays, j);
        assert(models(values@).len() == ms.len());
        assert(models(values@)[0] == child_models(ms, j as int)[0]);
        if !can_source(values.as_slice()) {
            return false;
        }
        j += 1;
    }
    true
}

/// Whether a type holds no list views.
fn holds_no_views(data_type: &DataType) -> (r: bool)
    ensures
        r == viewless(type_model(*data_type)),
    decreases type_model(*data_type),
{
    let ghost t = type_model(*data_type);
    if let Shape::ListView = shape_of(data_type) {
        return false;
    }
    let types = field_types(data_type);
    let mut j: usize = 0;
    while j < types.len()
        invariant
            0 <= j <= types@.len(),
            t == type_model(*data_type),
            types_are(types@, t.fields),
            t.shape !is ListView,
            forall|k: int| 0 <= k < j ==> viewless((#[trigger] t.fields[k]).data_type),
        decreases types@.len() - j,
    {
        let ghost field = t.fields[j as int];
        assert(type_model(types@[j as int]) == t.fields[j as int].data_type);
        if !holds_no_views(&types[j]) {
            return false;
        }
        j += 1;
    }
    true
}

/// Whether Arrow can copy arrays of one type one after the other.
pub(crate) fn can_be_copied(arrays: &[AnyArray]) -> (r: bool)
    requires
        all_valid(models(arrays@)),
        one_type(models(arrays@)),
        arrays@.len() > 0,
    ensures
        r == copyable(contents(arrays@[0]).data_type, models(arrays@)),
{
    can_source(arrays) && can_copy(arrays)
}

/// Whether arrays of one type can be concatenated within the limits.
pub fn can_concat(arrays: &[AnyArray]) -> (r: bool)
    requires
        all_valid(models(arrays@)),
        one_type(models(arrays@)),
        arrays@.len() > 0,
    ensures
        r == fits(contents(arrays@[0]).data_type, models(arrays@)),
    decreases contents(arrays@[0]).data_type, 1int,
{
    let ghost ms = models(arrays@);
    let ghost t = ms[0].data_type;
    if arrays.len() < 2 {
        return true;
    }
    assert(ms[0] == contents(arrays@[0]));
    assert(valid(ms[0]));
    assert forall|i: int| 0 <= i < arrays@.len() implies valid(contents(#[trigger] arrays@[i]))
        && contents(arrays@[i]).data_type == t by {
        assert(valid(ms[i]));
        assert(ms[i].data_type == t);
    }
    let slots: usize = match checked_total(arrays) {
        Some(n) => n,
        None => {
            return false;
        },
    };
    let data_type = arrays[0].data_type();
    match shape_of(&data_type) {
        Shape::Boolean => true,
        Shape::Primitive(_) => true,
        Shape::Bytes { large } => check_bytes(arrays, large),
        Shape::View => check_buffers(arrays),
        Shape::Dictionary => true,
        Shape::List { large } => {
            proof {
                lemma_used_type(ms);
                assert(lists_of(arrays@, large));
            }
            let (values, _lengths) = list_parts(arrays, large);
            assert(models(values@).len() == ms.len());
            assert(models(values@)[0] == used_models(ms)[0]);
            match checked_total(values.as_slice()) {
                Some(n) => n as i128 <= max_offset(large) && can_concat(values.as_slice()),
                None => {
                    assert(!fits(t.fields[0].data_type, used_models(ms)));
                    false
                },
            }
        },
        Shape::Struct => check_columns(arrays),
        Shape::Runs => {
            let kind = index_kind(&data_type);
            if slots as i128 > max_of(kind) || !holds_no_views(&field_types(&data_type)[1]) {
                return false;
            }
            proof {
                lemma_run_models(ms);
            }
            let values = run_parts(arrays);
            assert(models(values@) == run_models(ms));
            if values.len() == 0 {
                assert(models(values@).len() == 0);
                assert(fits(t.fields[1].data_type, run_models(ms)));
                true
            } else {
                assert(contents(values@[0]) == run_models(ms)[0]);
                can_concat(values.as_slice())
            }
        },
        Shape::FixedList(size) => {
            let values = fixed_parts(arrays, size);
            assert(models(values@).len() == ms.len());
            assert(models(values@)[0] == fixed_models(ms, size as int)[0]);
            assert forall|i: int| 0 <= i < ms.len() implies (
            #[trigger] models(values@)[i]).data_type == t.fields[0].data_type by {
                assert(contents(values@[i]).data_type == contents(arrays@[i]).data_type.fields[0].data_type);
            }
            can_be_copied(arrays) || can_concat(values.as_slice())
        },
        Shape::MapEntries => {
            proof {
                lemma_used_type(ms);
                assert(lists_of(arrays@, false));
            }
            let (values, _lengths) = list_parts(arrays, false);
            assert(models(values@).len() == ms.len());
            assert(models(values@)[0] == used_models(ms)[0]);
            can_be_copied(arrays) || match checked_total(values.as_slice()) {
                Some(n) => n as i128 <= max_offset(false) && can_concat(values.as_slice()),
                None => {
                    assert(!fits(t.fields[0].data_type, used_models(ms)));
                    false
                },
            }
        },
        Shape::Union { .. } => check_types(arrays) && (can_be_copied(arrays) || check_members(arrays)),
        _ => can_be_copied(arrays),
    }
}

/// Whether no two fields of unions have the same type id.
fn ids_differ(array: &AnyArray) -> (r: bool)
    requires
        contents(*array).data_type.shape is Union,
    ensures
        r == distinct_ids(contents(*array).data_type.fields),
{
    let ghost fields = contents(*array).data_type.fields;
    let ids = field_ids(&array.data_type());
    let mut i: usize = 0;
    while i < ids.len()
        invariant
            0 <= i <= ids@.len(),
            fields == contents(*array).data_type.fields,
            ids@.len() == fields.len(),
            forall|k: int| 0 <= k < ids@.len() ==> #[trigger] ids@[k] == fields[k].id,
            forall|k: int, q: int|
                0 <= k < q < i ==> (#[trigger] fields[k]).id != (#[trigger] fields[q]).id,
        decreases ids@.len() - i,
    {
        assert(ids@[i as int] == fields[i as int].id);
        let mut j: usize = 0;
        while j < i
            invariant
                0 <= j <= i < ids@.len(),
                fields == contents(*array).data_type.fields,
                ids@.len() == fields.len(),
                forall|k: int| 0 <= k < ids@.len() ==> #[trigger] ids@[k] == fields[k].id,
                forall|k: int| 0 <= k < j ==> (#[trigger] fields[k]).id != fields[i as int].id,
            decreases i - j,
        {
            assert(ids@[j as int] == fields[j as int].id);
            assert(ids@[i as int] == fields[i as int].id);
            if ids[j] == ids[i] {
                assert(fields[j as int].id == fields[i as int].id);
                return false;
            }
            j += 1;
        }
        i += 1;
    }
    true
}

/// Whether each child of unions can be concatenated within the limits, and offsets can number it.
fn check_members(arrays: &[AnyArray]) -> (r: bool)
    requires
        all_valid(models(arrays@)),
        one_type(models(arrays@)),
        arrays@.len() >= 2,
        contents(arrays@[0]).data_type.shape is Union,
        typed_children(contents(arrays@[0]).data_type, models(arrays@)),
    ensures
        r == (distinct_ids(contents(arrays@[0]).data_type.fields) && forall|j: int|
            0 <= j < contents(arrays@[0]).data_type.fields.len() ==> {
                &&& fits(
                    (#[trigger] contents(arrays@[0]).data_type.fields[j]).data_type,
                    child_models(models(arrays@), j),
                )
                &&& total(child_models(models(arrays@), j)) <= i32::MAX
            }),
    decreases contents(arrays@[0]).data_type, 0int,
{
    let ghost ms = models(arrays@);
    let ghost t = ms[0].data_type;
    assert(ms[0] == contents(arrays@[0]));
    assert(valid(ms[0]));
    assert forall|i: int| 0 <= i < arrays@.len() implies {
        &&& contents(#[trigger] arrays@[i]).data_type == t
        &&& contents(arrays@[i]).children.len() == t.fields.len()
    } by {
        assert(valid(ms[i]));
        assert(ms[i].data_type == t);
    }
    if !ids_differ(&arrays[0]) {
        return false;
    }
    let width: usize = arrays[0].num_columns();
    let mut j: usize = 0;
    while j < width
        invariant
            0 <= j <= width,
            width == t.fields.len(),
            ms == models(arrays@),
            ms.len() >= 2,
            t == ms[0].data_type,
            typed_children(t, ms),
            all_valid(ms),
            one_type(ms),
            t.shape is Union,
            forall|i: int|
                0 <= i < arrays@.len() ==> {
                    &&& contents(#[trigger] arrays@[i]).data_type == t
                    &&& contents(arrays@[i]).children.len() == t.fields.len()
                },
            forall|q: int|
                0 <= q < j ==> {
                    &&& fits((#[trigger] t.fields[q]).data_type, child_models(ms, q))
                    &&& total(child_models(ms, q)) <= i32::MAX
                },
        decreases width - j,
    {
        let ghost field = t.fields[j as int];
        proof {
            assert forall|i: int| 0 <= i < ms.len() implies 0 <= j < (
            #[trigger] ms[i]).children.len() by {
                assert(ms[i] == contents(arrays@[i]));
            }
            lemma_children(ms, j as int);
        }
        let values = children(arrays, j);
        assert(models(values@).len() == ms.len());
        assert(models(values@)[0] == child_models(ms, j as int)[0]);
        match checked_total(values.as_slice()) {
            Some(n) => {
                if n as i128 > i32::MAX as i128 || !can_concat(values.as_slice()) {
                    return false;
                }
            },
            None => {
                return false;
            },
        }
        j += 1;
    }
    true
}

/// Whether the columns of struct arrays can be concatenated within the limits.
fn check_columns(arrays: &[AnyArray]) -> (r: bool)
    requires
        all_valid(models(arrays@)),
        one_type(models(arrays@)),
        arrays@.len() >= 2,
        total(models(arrays@)) <= usize::MAX,
        contents(arrays@[0]).data_type.shape is Struct,
    ensures
        r == fits(contents(arrays@[0]).data_type, models(arrays@)),
    decreases contents(arrays@[0]).data_type, 0int,
{
    let ghost ms = models(arrays@);
    let ghost t = ms[0].data_type;
    assert(ms[0] == contents(arrays@[0]));
    assert(valid(ms[0]));
    assert forall|i: int| 0 <= i < arrays@.len() implies {
        &&& valid(contents(#[trigger] arrays@[i]))
        &&& contents(arrays@[i]).data_type == t
        &&& contents(arrays@[i]).children.len() == t.fields.len()
    } by {
        assert(valid(ms[i]));
        assert(ms[i].data_type == t);
    }
    if !check_types(arrays) {
        return false;
    }
    let width: usize = arrays[0].num_columns();
    let mut j: usize = 0;
    while j < width
        invariant
            0 <= j <= width,
            width == t.fields.len(),
            ms == models(arrays@),
            ms.len() >= 2,
            t == ms[0].data_type,
            typed_children(t, ms),
            all_valid(ms),
            one_type(ms),
            total(ms) <= usize::MAX,
            t.shape is Struct,
            forall|i: int|
                0 <= i < arrays@.len() ==> {
                    &&& valid(contents(#[trigger] arrays@[i]))
                    &&& contents(arrays@[i]).data_type == t
                    &&& contents(arrays@[i]).children.len() == t.fields.len()
                },
            forall|q: int|
                0 <= q < j ==> fits((#[trigger] t.fields[q]).data_type, child_models(ms, q)),
        decreases width - j,
    {
        let ghost field = t.fields[j as int];
        proof {
            assert forall|i: int| 0 <= i < ms.len() implies 0 <= j < (
            #[trigger] ms[i]).children.len() by {
                assert(ms[i] == contents(arrays@[i]));
            }
            lemma_children(ms, j as int);
        }
        let values = children(arrays, j);
        assert(models(values@).len() == ms.len());
        assert(models(values@)[0] == child_models(ms, j as int)[0]);
        if !can_concat(values.as_slice()) {
            return false;
        }
        j += 1;
    }
    true
}

} // verus!

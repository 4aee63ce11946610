//! What the Arrow format and the machine can hold.
//!
//! Offsets, keys, run ends and buffer numbers are integers of fixed widths. The predicates here say
//! of arrays that are to be put one after the other whether those integers can number the result.
use vstd::prelude::*;

use crate::model::{
    end_width, index_max, offset_max, run_of, sliced, total, ArrayModel, FieldModel, Primitive,
    Shape, TypeModel,
};

verus! {

/// The sum of lengths.
pub open spec fn sum(lengths: Seq<int>) -> int
    decreases lengths.len(),
{
    if lengths.len() == 0 {
        0
    } else {
        sum(lengths.drop_last()) + lengths.last()
    }
}

/// Lengths as mathematical integers.
pub open spec fn as_ints(lengths: Seq<usize>) -> Seq<int> {
    Seq::new(lengths.len(), |i: int| lengths[i] as int)
}

/// The `j`-th child of each array.
pub open spec fn child_models(ms: Seq<ArrayModel>, j: int) -> Seq<ArrayModel> {
    Seq::new(ms.len(), |i: int| ms[i].children[j])
}

/// Whether the children of struct arrays or unions have the types that the fields give them.
/// `ArrayData::validate` holds no other struct array or union for valid, though the constructor of
/// unions does not look.
pub open spec fn typed_children(t: TypeModel, ms: Seq<ArrayModel>) -> bool {
    forall|i: int, j: int|
        0 <= i < ms.len() && 0 <= j < t.fields.len() ==> (#[trigger] ms[i].children[j]).data_type
            == t.fields[j].data_type
}

/// The number of bytes or items between the first offset of an array and its last.
pub open spec fn extent(m: ArrayModel) -> int {
    m.offsets.last() - m.offsets[0]
}

/// The bytes that the offsets of the arrays span together.
pub open spec fn extent_total(ms: Seq<ArrayModel>) -> int
    decreases ms.len(),
{
    if ms.len() == 0 {
        0
    } else {
        extent_total(ms.drop_last()) + extent(ms.last())
    }
}

/// Whether offsets can number the bytes of the arrays.
pub open spec fn bytes_fit(large: bool, ms: Seq<ArrayModel>) -> bool {
    &&& extent_total(ms) <= offset_max(large)
    &&& extent_total(ms) <= usize::MAX
}

/// The items of a list array that its offsets span.
pub open spec fn used(m: ArrayModel) -> ArrayModel {
    sliced(m.children[0], m.offsets[0], extent(m))
}

/// The items of each list array that its offsets span.
pub open spec fn used_models(ms: Seq<ArrayModel>) -> Seq<ArrayModel> {
    Seq::new(ms.len(), |i: int| used(ms[i]))
}

/// The items of each array of lists of fixed size that lie in its slots.
pub open spec fn fixed_models(ms: Seq<ArrayModel>, size: int) -> Seq<ArrayModel> {
    Seq::new(ms.len(), |i: int| sliced(ms[i].children[0], 0, ms[i].len * size))
}

/// The buffers of the view arrays together.
pub open spec fn buffers_total(ms: Seq<ArrayModel>) -> int
    decreases ms.len(),
{
    if ms.len() == 0 {
        0
    } else {
        buffers_total(ms.drop_last()) + ms.last().buffers
    }
}

/// The stored run that the first row of a run-end encoded array lies in.
pub open spec fn first_run(m: ArrayModel) -> int {
    run_of(m.ints, m.offset as int)
}

/// The number of stored runs that the rows of a run-end encoded array lie in.
pub open spec fn run_count(m: ArrayModel) -> int {
    run_of(m.ints, m.offset + m.len - 1) + 1 - first_run(m)
}

/// The values of the runs that the rows of a run-end encoded array lie in.
pub open spec fn run_values(m: ArrayModel) -> ArrayModel {
    sliced(m.children[0], first_run(m), run_count(m))
}

/// The run values of each run-end encoded array that has rows.
pub open spec fn run_models(ms: Seq<ArrayModel>) -> Seq<ArrayModel>
    decreases ms.len(),
{
    if ms.len() == 0 {
        seq![]
    } else if ms.last().len == 0 {
        run_models(ms.drop_last())
    } else {
        run_models(ms.drop_last()).push(run_values(ms.last()))
    }
}

/// The slots of the `j`-th child that the first `n` slots of a dense union refer to.
pub open spec fn picked(m: ArrayModel, j: int, n: int) -> Seq<ArrayModel>
    decreases n,
{
    if n <= 0 {
        seq![]
    } else if m.ints[n - 1] == j {
        picked(m, j, n - 1).push(sliced(m.children[j], m.offsets[n - 1], 1))
    } else {
        picked(m, j, n - 1)
    }
}

/// The slots of the `j`-th child that dense unions refer to.
pub open spec fn picked_models(ms: Seq<ArrayModel>, j: int) -> Seq<ArrayModel>
    decreases ms.len(),
{
    if ms.len() == 0 {
        seq![]
    } else {
        picked_models(ms.drop_last(), j) + picked(ms.last(), j, ms.last().len as int)
    }
}

/// Whether arrays of type `t` can be copied one after the other, as far as offsets, run ends and
/// lengths go. List views are not copied.
pub open spec fn copies_fit(t: TypeModel, ms: Seq<ArrayModel>) -> bool
    decreases t,
{
    ms.len() > 0 ==> total(ms) <= usize::MAX && match t.shape {
        Shape::Bytes { large } => bytes_fit(large, ms),
        Shape::List { large } => {
            &&& t.fields.len() > 0
            &&& total(used_models(ms)) <= offset_max(large)
            &&& copies_fit(t.fields[0].data_type, used_models(ms))
        },
        Shape::MapEntries => {
            &&& t.fields.len() > 0
            &&& total(used_models(ms)) <= offset_max(false)
            &&& copies_fit(t.fields[0].data_type, used_models(ms))
        },
        Shape::FixedList(size) => {
            &&& t.fields.len() > 0
            &&& copies_fit(t.fields[0].data_type, fixed_models(ms, size as int))
        },
        Shape::Struct => typed_children(t, ms) && forall|j: int|
            0 <= j < t.fields.len() ==> copies_fit(
                (#[trigger] t.fields[j]).data_type,
                child_models(ms, j),
            ),
        Shape::Union { dense } => typed_children(t, ms) && forall|j: int|
            0 <= j < t.fields.len() ==> {
                let ft = (#[trigger] t.fields[j]).data_type;
                if dense {
                    total(picked_models(ms, j)) <= i32::MAX + 1 && copies_fit(
                        ft,
                        picked_models(ms, j),
                    )
                } else {
                    copies_fit(ft, child_models(ms, j))
                }
            },
        Shape::Runs => {
            &&& t.fields.len() > 1
            &&& total(ms) <= index_max(t)
            &&& copies_fit(t.fields[1].data_type, run_models(ms))
        },
        Shape::ListView => false,
        _ => true,
    }
}

/// Whether the keys of dictionary arrays stay in range when each array's values go behind those
/// of the arrays before it.
pub open spec fn keys_fit(t: TypeModel, ms: Seq<ArrayModel>) -> bool {
    &&& total(child_models(ms, 0)) <= index_max(t)
    &&& total(child_models(ms, 0)) <= usize::MAX
    &&& forall|i: int, k: int|
        0 <= i < ms.len() && 0 <= k < ms[i].ints.len() ==> #[trigger] ms[i].ints[k] + total(
            child_models(ms, 0).take(i),
        ) <= index_max(t)
}

/// Whether memory for `n` slots of up to 64 bytes can be addressed.
pub open spec fn ample(n: int) -> bool {
    n * 64 + 128 <= isize::MAX
}

/// Whether memory for `n` slots of type `t` can be asked for beforehand: whether its size stays within
/// what can be addressed.
pub open spec fn roomy(t: TypeModel, n: int) -> bool
    decreases t,
{
    &&& ample(n)
    &&& match t.shape {
        Shape::FixedBinary(width) => n * width + 128 <= isize::MAX,
        Shape::FixedList(size) => forall|j: int|
            0 <= j < t.fields.len() ==> roomy(
                (#[trigger] t.fields[j]).data_type,
                if size < 0 {
                    0
                } else {
                    n * size
                },
            ),
        Shape::Dictionary => true,
        _ => forall|j: int|
            0 <= j < t.fields.len() ==> roomy((#[trigger] t.fields[j]).data_type, n),
    }
}

/// Whether arrays of type `t` can be the sources of one copy, as far as dictionary keys and view
/// buffers go. Run-end encoded sources must not be slices that leave out the first stored rows, and
/// their buffers of run ends must hold whole run ends. Intervals are not copied: Arrow reads them as
/// wider integers than they are aligned for.
pub open spec fn sources_fit(t: TypeModel, ms: Seq<ArrayModel>) -> bool
    decreases t,
{
    ms.len() > 0 ==> match t.shape {
        Shape::View => buffers_total(ms) <= u32::MAX,
        Shape::Primitive(kind) => kind !is Interval,
        Shape::Dictionary => {
            &&& t.fields.len() > 1
            &&& keys_fit(t, ms)
            &&& roomy(t.fields[1].data_type, total(child_models(ms, 0)) as int)
            &&& sources_fit(t.fields[1].data_type, child_models(ms, 0))
            &&& copies_fit(t.fields[1].data_type, child_models(ms, 0))
        },
        Shape::Runs => {
            &&& t.fields.len() > 1
            &&& forall|i: int|
                0 <= i < ms.len() ==> (#[trigger] ms[i]).offset == 0 && ms[i].end_bytes
                    % end_width(t) == 0
            &&& sources_fit(t.fields[1].data_type, child_models(ms, 0))
        },
        Shape::List { .. } => {
            &&& t.fields.len() > 0
            &&& sources_fit(t.fields[0].data_type, child_models(ms, 0))
        },
        Shape::MapEntries => {
            &&& t.fields.len() > 0
            &&& sources_fit(t.fields[0].data_type, child_models(ms, 0))
        },
        Shape::FixedList(_) => {
            &&& t.fields.len() > 0
            &&& sources_fit(t.fields[0].data_type, child_models(ms, 0))
        },
        Shape::Struct => typed_children(t, ms) && forall|j: int|
            0 <= j < t.fields.len() ==> sources_fit(
                (#[trigger] t.fields[j]).data_type,
                child_models(ms, j),
            ),
        Shape::Union { .. } => typed_children(t, ms) && forall|j: int|
            0 <= j < t.fields.len() ==> sources_fit(
                (#[trigger] t.fields[j]).data_type,
                child_models(ms, j),
            ),
        Shape::ListView => false,
        _ => true,
    }
}

/// Whether the room that arrays of type `t` need can be counted.
pub open spec fn room_fits(t: TypeModel, ms: Seq<ArrayModel>) -> bool
    decreases t,
{
    &&& total(ms) <= usize::MAX
    &&& match t.shape {
        Shape::Bytes { .. } => extent_total(ms) <= usize::MAX,
        Shape::FixedList(_) => t.fields.len() > 0 && (t.fields[0].data_type.shape is Bytes
            || t.fields[0].data_type.shape is FixedList ==> room_fits(
            t.fields[0].data_type,
            child_models(ms, 0),
        )),
        _ => true,
    }
}

/// Whether Arrow can copy arrays of type `t` one after the other.
pub open spec fn copyable(t: TypeModel, ms: Seq<ArrayModel>) -> bool {
    sources_fit(t, ms) && copies_fit(t, ms)
}

/// Whether no two fields of a union have the same type id.
pub open spec fn distinct_ids(fields: Seq<FieldModel>) -> bool {
    forall|i: int, j: int|
        0 <= i < j < fields.len() ==> (#[trigger] fields[i]).id != (#[trigger] fields[j]).id
}

/// Whether a type holds no list views. Arrow cannot test those for itself, as it does for the values of
/// runs.
pub open spec fn viewless(t: TypeModel) -> bool
    decreases t,
{
    &&& t.shape !is ListView
    &&& forall|j: int| 0 <= j < t.fields.len() ==> viewless((#[trigger] t.fields[j]).data_type)
}

/// Whether arrays of type `t` can be concatenated: whether the offsets, run ends, view buffers
/// and lengths of the result stay in range. Lists of fixed size, maps and unions are copied whole if
/// they can be, and put together of their concatenated parts otherwise.
pub open spec fn fits(t: TypeModel, ms: Seq<ArrayModel>) -> bool
    decreases t,
{
    ms.len() >= 2 ==> {
        &&& total(ms) <= usize::MAX
        &&& match t.shape {
            Shape::Boolean => true,
            Shape::Primitive(_) => true,
            Shape::Bytes { large } => bytes_fit(large, ms),
            Shape::View => buffers_total(ms) <= u32::MAX,
            Shape::Dictionary => t.fields.len() > 1,
            Shape::List { large } => {
                &&& t.fields.len() > 0
                &&& total(used_models(ms)) <= offset_max(large)
                &&& fits(t.fields[0].data_type, used_models(ms))
            },
            Shape::Struct => typed_children(t, ms) && forall|j: int|
                0 <= j < t.fields.len() ==> fits(
                    (#[trigger] t.fields[j]).data_type,
                    child_models(ms, j),
                ),
            Shape::Runs => {
                &&& t.fields.len() > 1
                &&& total(ms) <= index_max(t)
                &&& viewless(t.fields[1].data_type)
                &&& fits(t.fields[1].data_type, run_models(ms))
            },
            Shape::FixedList(size) => t.fields.len() > 0 && (copyable(t, ms) || fits(
                t.fields[0].data_type,
                fixed_models(ms, size as int),
            )),
            Shape::MapEntries => t.fields.len() > 0 && (copyable(t, ms) || {
                &&& total(used_models(ms)) <= offset_max(false)
                &&& fits(t.fields[0].data_type, used_models(ms))
            }),
            Shape::Union { .. } => typed_children(t, ms) && (copyable(t, ms) || {
                &&& distinct_ids(t.fields)
                &&& forall|j: int|
                    0 <= j < t.fields.len() ==> {
                        &&& fits((#[trigger] t.fields[j]).data_type, child_models(ms, j))
                        &&& total(child_models(ms, j)) <= i32::MAX
                    }
            }),
            _ => copyable(t, ms),
        }
    }
}

} // verus!

//! Concatenation of arrays.
use arrow_schema::DataType;
use vstd::prelude::*;

use crate::capacity::{children, copy_capacity, lemma_children, total_len};
use crate::checks::{can_be_copied, can_concat};
use crate::dictionary::{
    concat_dictionaries, dictionary_values, keys_may_fail, told_outcome, values_may_fail,
};
use crate::error::{nothing_text, nothing_to_concat, ConcatError};
use crate::joins::{
    all_valid, child_rows, gaps, joined_columns, joined_ends, joined_gaps, lemma_joined_len,
    lemma_joined_nulls, lemma_joined_one, lemma_list_join, lemma_list_rows, lemma_run_bounds,
    lemma_run_of, lemma_run_step, lemma_slot_nulls, lemma_struct_join, lemma_struct_rows,
    lemma_take_step, lemma_total_prefix, lemma_validity, listlike, one_type, run_rows, shifted_ends,
};
use crate::kernels::{
    concat_boolean, concat_byte_view, concat_bytes, concat_fallback, concat_nulls,
    concat_primitives, joinable,
};
use crate::limits::{
    as_ints, child_models, copyable, extent, extent_total, first_run, fits, fixed_models, run_count,
    run_models, run_values, used, used_models,
};
use crate::mismatch::{mismatch_message, mismatch_text, type_models, views};
use crate::model::{
    child_row, clear_nulls, concatenates, holds_null, index_max, joined, joined_nulls,
    joined_validity, no_new_nulls, reports_null, rising, row, rows, run_of, sliced, some_hold_null,
    sturdy, total, valid, ArrayModel, Shape, TypeModel,
};
use crate::outside::{
    column_rows, contents, is_list, list_array, models, option_bits, printable, run_array,
    same_type, struct_array, text_of, type_model, type_text, unclear_nulls, unmasked_item,
    unmasked_null, AnyArray,
};
use crate::parts::{
    lemma_run_models, lemma_used_type, list_parts, lists_of, run_bounds, run_parts, runs_of,
};
use crate::pieces::{concat_fixed_lists, concat_maps, concat_unions};
use crate::shapes::{index_kind, shape_of};
use crate::slices::{lemma_sliced_holds, lemma_whole_slice};
use crate::validity::all_agree;

verus! {

/// What can go wrong with arrays of one type.
pub enum Failure {
    /// No run-end encoded array has a row.
    NoRows,
    /// Keys cannot number the values of dictionaries.
    Keys,
    /// The values of dictionaries are too large for one array.
    Values,
    /// Arrow may refuse the parts of the result: a field takes no null and its values may hold some,
    /// or the parts of a run-end encoded array are not valid.
    Parts,
}

/// Whether Arrow may refuse to make lists of these items.
pub open spec fn list_parts_may_fail(t: TypeModel, items: Seq<ArrayModel>) -> bool {
    !t.fields[0].nullable && some_hold_null(items)
}

/// Whether Arrow may refuse to make structs of the columns of these arrays.
pub open spec fn struct_parts_may_fail(t: TypeModel, ms: Seq<ArrayModel>) -> bool {
    unmasked_null(t, joined_validity(ms), joined_columns(ms, t.fields.len())) || unclear_nulls(t)
}

/// Whether Arrow may refuse to make run-end encoded arrays of type `t` of the concatenated values of
/// runs: the field of the run ends claims to be nullable, or the values need not be sturdy.
pub open spec fn run_parts_may_fail(t: TypeModel, values: Seq<ArrayModel>) -> bool {
    t.fields[0].nullable || exists|v: ArrayModel| #[trigger]
        run_values_of(t.fields[1].data_type, values, v) && !sturdy(v)
}

/// Whether `v` may be what the values of runs make.
pub open spec fn run_values_of(t: TypeModel, values: Seq<ArrayModel>, v: ArrayModel) -> bool {
    &&& concatenates(values, v)
    &&& laid_out(t, values, v)
    &&& values.len() == 1 ==> v == whole(values[0])
}

/// Whether Arrow refuses to make lists of fixed size of these arrays' items: a field that takes no null,
/// and whose nulls are told slot by slot, has one in a slot that is not null itself.
pub open spec fn fixed_parts_fail(t: TypeModel, ms: Seq<ArrayModel>, size: int) -> bool {
    &&& !t.fields[0].nullable
    &&& clear_nulls(t.fields[0].data_type)
    &&& unmasked_item(joined_validity(ms), size, joined(fixed_models(ms, size)))
}

/// Whether Arrow may refuse to make lists of fixed size of these arrays' items: it refuses them, or
/// the nulls of a field that takes none are not told slot by slot.
pub open spec fn fixed_parts_may_fail(t: TypeModel, ms: Seq<ArrayModel>, size: int) -> bool {
    fixed_parts_fail(t, ms, size) || !t.fields[0].nullable && !clear_nulls(t.fields[0].data_type)
}

/// Whether Arrow refuses to make maps of these entries: it takes none that are or may be null.
pub open spec fn map_parts_fail(t: TypeModel, entries: Seq<ArrayModel>) -> bool {
    t.fields[0].nullable || joined_nulls(entries) is Some
}

/// Whether concatenating arrays of type `t` may fail for this cause. Where it may not for any, it
/// succeeds.
pub open spec fn may_fail(t: TypeModel, ms: Seq<ArrayModel>, cause: Failure) -> bool
    decreases t,
{
    ms.len() >= 2 && match t.shape {
        Shape::Dictionary => t.fields.len() > 1 && {
            ||| cause is Keys && keys_may_fail(t, ms)
            ||| cause is Values && values_may_fail(t, ms)
            ||| !copyable(t.fields[1].data_type, child_models(ms, 0)) && may_fail(
                t.fields[1].data_type,
                child_models(ms, 0),
                cause,
            )
        },
        Shape::List { .. } => t.fields.len() > 0 && {
            ||| may_fail(t.fields[0].data_type, used_models(ms), cause)
            ||| cause is Parts && list_parts_may_fail(t, used_models(ms))
        },
        Shape::Struct => {
            ||| exists|j: int|
                0 <= j < t.fields.len() && may_fail(
                    (#[trigger] t.fields[j]).data_type,
                    child_models(ms, j),
                    cause,
                )
            ||| cause is Parts && struct_parts_may_fail(t, ms)
        },
        Shape::Runs => t.fields.len() > 1 && {
            ||| cause is NoRows && run_models(ms).len() == 0
            ||| may_fail(t.fields[1].data_type, run_models(ms), cause)
            ||| cause is Parts && run_parts_may_fail(t, run_models(ms))
        },
        Shape::FixedList(size) => t.fields.len() > 0 && !copyable(t, ms) && {
            ||| may_fail(t.fields[0].data_type, fixed_models(ms, size as int), cause)
            ||| cause is Parts && fixed_parts_may_fail(t, ms, size as int)
        },
        Shape::MapEntries => t.fields.len() > 0 && !copyable(t, ms) && {
            ||| may_fail(t.fields[0].data_type, used_models(ms), cause)
            ||| cause is Parts && map_parts_fail(t, used_models(ms))
        },
        Shape::Union { .. } => !copyable(t, ms) && exists|j: int|
            0 <= j < t.fields.len() && may_fail(
                (#[trigger] t.fields[j]).data_type,
                child_models(ms, j),
                cause,
            ),
        _ => false,
    }
}

/// Whether concatenating arrays of type `t` fails in any case: where run-end encoded arrays have no
/// rows, or a field that takes no null has one.
pub open spec fn refused(t: TypeModel, ms: Seq<ArrayModel>) -> bool
    decreases t,
{
    ms.len() >= 2 && match t.shape {
        Shape::List { .. } => t.fields.len() > 0 && {
            ||| refused(t.fields[0].data_type, used_models(ms))
            ||| !t.fields[0].nullable && (joined_nulls(used_models(ms)) is Some
                || t.fields[0].data_type.shape is Null && total(used_models(ms)) > 0)
        },
        Shape::Struct => {
            ||| exists|j: int|
                0 <= j < t.fields.len() && refused(
                    (#[trigger] t.fields[j]).data_type,
                    child_models(ms, j),
                )
            ||| unmasked_null(t, joined_validity(ms), joined_columns(ms, t.fields.len()))
        },
        Shape::Runs => t.fields.len() > 1 && {
            ||| run_models(ms).len() == 0
            ||| refused(t.fields[1].data_type, run_models(ms))
        },
        Shape::FixedList(size) => t.fields.len() > 0 && !copyable(t, ms) && {
            ||| refused(t.fields[0].data_type, fixed_models(ms, size as int))
            ||| fixed_parts_fail(t, ms, size as int)
        },
        Shape::MapEntries => t.fields.len() > 0 && !copyable(t, ms) && {
            ||| refused(t.fields[0].data_type, used_models(ms))
            ||| map_parts_fail(t, used_models(ms))
        },
        Shape::Union { .. } => !copyable(t, ms) && exists|j: int|
            0 <= j < t.fields.len() && refused(
                (#[trigger] t.fields[j]).data_type,
                child_models(ms, j),
            ),
        _ => false,
    }
}

/// Whether none of the first `n` columns of struct arrays has to fail.
pub open spec fn columns_pass(t: TypeModel, ms: Seq<ArrayModel>, n: int) -> bool {
    forall|k: int|
        0 <= k < n ==> !refused((#[trigger] t.fields[k]).data_type, child_models(ms, k))
}

/// Whether an error is one that concatenating arrays of type `t` may give.
///
/// A part of the arrays that fails gives the error of the whole: of structs the first column that
/// fails. Where the parts do not fail, Arrow's error tells that it refused to put them together.
pub open spec fn explained(t: TypeModel, ms: Seq<ArrayModel>, error: ConcatError) -> bool
    decreases t,
{
    ms.len() >= 2 && match t.shape {
        Shape::Dictionary => t.fields.len() > 1 && {
            ||| error is DictionaryKeyOverflow && keys_may_fail(t, ms)
            ||| error is DictionaryValueOverflow && values_may_fail(t, ms)
            ||| !copyable(t.fields[1].data_type, child_models(ms, 0)) && explained(
                t.fields[1].data_type,
                child_models(ms, 0),
                error,
            )
        },
        Shape::List { .. } => t.fields.len() > 0 && {
            ||| explained(t.fields[0].data_type, used_models(ms), error)
            ||| {
                &&& error is Arrow
                &&& list_parts_may_fail(t, used_models(ms))
                &&& !refused(t.fields[0].data_type, used_models(ms))
            }
        },
        Shape::Struct => {
            ||| exists|j: int|
                0 <= j < t.fields.len() && explained(
                    (#[trigger] t.fields[j]).data_type,
                    child_models(ms, j),
                    error,
                ) && columns_pass(t, ms, j)
            ||| {
                &&& error is Arrow
                &&& struct_parts_may_fail(t, ms)
                &&& columns_pass(t, ms, t.fields.len() as int)
            }
        },
        Shape::Runs => t.fields.len() > 1 && {
            ||| {
                &&& error matches ConcatError::Compute(text)
                &&& text@ == nothing_text()
                &&& run_models(ms).len() == 0
            }
            ||| explained(t.fields[1].data_type, run_models(ms), error)
            ||| {
                &&& error is Arrow
                &&& run_parts_may_fail(t, run_models(ms))
                &&& run_models(ms).len() > 0
                &&& !refused(t.fields[1].data_type, run_models(ms))
            }
        },
        Shape::FixedList(size) => t.fields.len() > 0 && !copyable(t, ms) && {
            ||| explained(t.fields[0].data_type, fixed_models(ms, size as int), error)
            ||| {
                &&& error is Arrow
                &&& fixed_parts_may_fail(t, ms, size as int)
                &&& !refused(t.fields[0].data_type, fixed_models(ms, size as int))
            }
        },
        Shape::MapEntries => t.fields.len() > 0 && !copyable(t, ms) && {
            ||| explained(t.fields[0].data_type, used_models(ms), error)
            ||| {
                &&& error is Arrow
                &&& map_parts_fail(t, used_models(ms))
                &&& !refused(t.fields[0].data_type, used_models(ms))
            }
        },
        Shape::Union { .. } => !copyable(t, ms) && exists|j: int|
            0 <= j < t.fields.len() && explained(
                (#[trigger] t.fields[j]).data_type,
                child_models(ms, j),
                error,
            ) && columns_pass(t, ms, j),
        _ => false,
    }
}

/// The cause that an error tells.
pub open spec fn cause_of(error: ConcatError) -> Failure {
    match error {
        ConcatError::DictionaryKeyOverflow => Failure::Keys,
        ConcatError::DictionaryValueOverflow => Failure::Values,
        ConcatError::Arrow(_) => Failure::Parts,
        _ => Failure::NoRows,
    }
}

/// How the arrays are laid out that two or more arrays of type `t` make.
///
/// The bits of booleans start with the first slot. The offsets of strings, byte strings and lists start
/// at zero and span just what the offsets of the arrays span. Structs hold the concatenated columns. Run-end encoded arrays hold the runs of the
/// arrays. What becomes of the values of dictionaries, [`dictionary_values`] tells. Items, columns and
/// the values of runs are laid out in the same way.
pub open spec fn laid_out(t: TypeModel, ms: Seq<ArrayModel>, out: ArrayModel) -> bool
    decreases t,
{
    ms.len() >= 2 ==> match t.shape {
        Shape::Boolean => out.offset == 0,
        Shape::Bytes { .. } => {
            &&& out.offsets[0] == 0
            &&& out.offsets.last() == extent_total(ms)
        },
        Shape::List { .. } => {
            &&& t.fields.len() > 0
            &&& out.offsets[0] == 0
            &&& gaps(out) == joined_gaps(ms)
            &&& out.offsets.last() == out.children[0].len
            &&& concatenates(used_models(ms), out.children[0])
            &&& laid_out(t.fields[0].data_type, used_models(ms), out.children[0])
        },
        Shape::Struct => {
            &&& out.children.len() == t.fields.len()
            &&& forall|j: int|
                0 <= j < t.fields.len() ==> {
                    &&& concatenates(child_models(ms, j), out.children[j])
                    &&& laid_out(
                        (#[trigger] t.fields[j]).data_type,
                        child_models(ms, j),
                        out.children[j],
                    )
                }
        },
        Shape::Runs => {
            &&& t.fields.len() > 1
            &&& out.offset == 0
            &&& out.ints == joined_ends(ms)
            &&& concatenates(run_models(ms), out.children[0])
            &&& laid_out(t.fields[1].data_type, run_models(ms), out.children[0])
        },
        Shape::Dictionary => dictionary_values(ms, out),
        _ => true,
    }
}

/// What concatenating arrays of one type gives.
pub open spec fn outcome(ms: Seq<ArrayModel>, result: Result<AnyArray, ConcatError>) -> bool {
    match result {
        Ok(out) => {
            &&& concatenates(ms, contents(out))
            &&& laid_out(ms[0].data_type, ms, contents(out))
            &&& no_new_nulls(ms, contents(out))
            &&& !refused(ms[0].data_type, ms)
        },
        Err(error) => explained(ms[0].data_type, ms, error),
    }
}

/// Whether arrays are of different types.
pub open spec fn mixed(ms: Seq<ArrayModel>) -> bool {
    ms.len() >= 2 && !one_type(ms)
}

/// The types of arrays.
pub open spec fn types_of(ms: Seq<ArrayModel>) -> Seq<TypeModel> {
    Seq::new(ms.len(), |i: int| ms[i].data_type)
}

/// Whether texts are those of types, as far as they tell no metadata of fields.
pub open spec fn texts_of(texts: Seq<Seq<char>>, types: Seq<TypeModel>) -> bool {
    &&& texts.len() == types.len()
    &&& forall|i: int|
        0 <= i < types.len() && printable(types[i]) ==> #[trigger] texts[i] == type_text(types[i])
}

/// Whether an error tells that arrays are of different types.
pub open spec fn tells_mismatch(ms: Seq<ArrayModel>, error: ConcatError) -> bool {
    error matches ConcatError::InvalidArgument(text) && exists|texts: Seq<Seq<char>>|
        #[trigger] texts_of(texts, types_of(ms)) && text@ == mismatch_text(types_of(ms), texts)
}

/// Whether arrays of one type agree with themselves, and the result of concatenating them can be
/// numbered.
pub open spec fn in_limits(ms: Seq<ArrayModel>) -> bool {
    one_type(ms) ==> all_valid(ms) && (ms.len() >= 2 ==> fits(ms[0].data_type, ms))
}

/// What concatenating arrays gives.
///
/// No array at all is an error, and so are arrays of different types. One array alone gives an array
/// of its own rows. Two or more of one type give an array of all their rows, in order, unless one of
/// the causes of [`may_fail`] stands in the way.
pub open spec fn result_of(ms: Seq<ArrayModel>, result: Result<AnyArray, ConcatError>) -> bool {
    if ms.len() == 0 {
        result matches Err(ConcatError::Compute(text)) && text@ == nothing_text()
    } else if mixed(ms) {
        result matches Err(error) && tells_mismatch(ms, error)
    } else {
        outcome(ms, result)
    }
}

/// Whether the result of concatenating a part of arrays went into that of concatenating the arrays: as the
/// `j`-th child, or as its error.
pub open spec fn passes_on(
    inner: Result<AnyArray, ConcatError>,
    result: Result<AnyArray, ConcatError>,
    j: int,
) -> bool {
    match inner {
        Ok(part) => match result {
            Ok(out) => contents(out).children[j] == contents(part),
            Err(error) => error is Arrow,
        },
        Err(error) => result == Err::<AnyArray, ConcatError>(error),
    }
}

/// Whether dictionaries were treated as the test of shared buffers told, wherever arrays of type `t` hold
/// them, unless Arrow copied the arrays whole.
pub open(crate) spec fn traced(
    t: TypeModel,
    ms: Seq<ArrayModel>,
    result: Result<AnyArray, ConcatError>,
) -> bool
    decreases t, 0int,
{
    ms.len() >= 2 ==> match t.shape {
        Shape::Dictionary => told_outcome(ms, result),
        Shape::List { .. } => t.fields.len() > 0 && part_traced(
            t.fields[0].data_type,
            used_models(ms),
            result,
            0,
        ),
        Shape::Runs => t.fields.len() > 1 && (run_models(ms).len() == 0 || part_traced(
            t.fields[1].data_type,
            run_models(ms),
            result,
            0,
        )),
        Shape::FixedList(size) => t.fields.len() > 0 && (copyable(t, ms) || part_traced(
            t.fields[0].data_type,
            fixed_models(ms, size as int),
            result,
            0,
        )),
        Shape::MapEntries => t.fields.len() > 0 && (copyable(t, ms) || part_traced(
            t.fields[0].data_type,
            used_models(ms),
            result,
            0,
        )),
        Shape::Struct => match result {
            Ok(_) => forall|j: int|
                0 <= j < t.fields.len() ==> part_traced(
                    (#[trigger] t.fields[j]).data_type,
                    child_models(ms, j),
                    result,
                    j,
                ),
            Err(error) => error is Arrow || exists|j: int|
                0 <= j < t.fields.len() && traced(
                    (#[trigger] t.fields[j]).data_type,
                    child_models(ms, j),
                    result,
                ),
        },
        Shape::Union { .. } => copyable(t, ms) || match result {
            Ok(_) => forall|j: int|
                0 <= j < t.fields.len() ==> part_traced(
                    (#[trigger] t.fields[j]).data_type,
                    child_models(ms, j),
                    result,
                    j,
                ),
            Err(error) => error is Arrow || exists|j: int|
                0 <= j < t.fields.len() && traced(
                    (#[trigger] t.fields[j]).data_type,
                    child_models(ms, j),
                    result,
                ),
        },
        _ => true,
    }
}

/// Whether dictionaries in a part of arrays were treated so, whose result went into that of the arrays.
pub open(crate) spec fn part_traced(
    t: TypeModel,
    parts: Seq<ArrayModel>,
    result: Result<AnyArray, ConcatError>,
    j: int,
) -> bool
    decreases t, 1int,
{
    exists|inner: Result<AnyArray, ConcatError>| #[trigger]
        passes_on(inner, result, j) && traced(t, parts, inner)
}

/// A part whose result went into that of the arrays is traced if its own result is.
pub(crate) proof fn lemma_part_traced(
    t: TypeModel,
    parts: Seq<ArrayModel>,
    inner: Result<AnyArray, ConcatError>,
    result: Result<AnyArray, ConcatError>,
    j: int,
)
    requires
        passes_on(inner, result, j),
        traced(t, parts, inner),
    ensures
        part_traced(t, parts, result, j),
{
}

/// An array without what lies outside its slots.
pub open spec fn whole(m: ArrayModel) -> ArrayModel {
    sliced(m, 0, m.len as int)
}

/// Concatenates arrays of the same type into one array.
pub fn concat(arrays: &[AnyArray]) -> (r: Result<AnyArray, ConcatError>)
    requires
        in_limits(models(arrays@)),
    ensures
        result_of(models(arrays@), r),
        arrays@.len() == 1 ==> (r matches Ok(out) && contents(out) == whole(contents(arrays@[0]))),
        one_type(models(arrays@)) && arrays@.len() > 0 ==> traced(
            contents(arrays@[0]).data_type,
            models(arrays@),
            r,
        ),
    decreases contents(arrays@[0]).data_type, 2int,
{
    let ghost ms = models(arrays@);
    if arrays.len() == 0 {
        return Err(nothing_to_concat());
    }
    assert(ms[0] == contents(arrays@[0]));
    if arrays.len() == 1 {
        let array = &arrays[0];
        let len: usize = array.len();
        proof {
            lemma_whole_slice(ms[0]);
            lemma_joined_one(ms[0]);
            lemma_sliced_holds(ms[0], 0, ms[0].len as int);
            assert(ms =~= seq![ms[0]]);
            assert(holds_null(ms[0]) ==> some_hold_null(ms));
        }
        return Ok(array.slice(0, len));
    }
    let mut types: Vec<DataType> = Vec::with_capacity(arrays.len());
    let mut same: bool = true;
    let mut i: usize = 0;
    while i < arrays.len()
        invariant
            0 <= i <= arrays@.len(),
            ms == models(arrays@),
            types@.len() == i,
            forall|k: int| 0 <= k < i ==> type_model(#[trigger] types@[k]) == ms[k].data_type,
            same == forall|k: int| 0 <= k < i ==> (#[trigger] ms[k]).data_type == ms[0].data_type,
        decreases arrays@.len() - i,
    {
        let data_type = arrays[i].data_type();
        assert(ms[i as int] == contents(arrays@[i as int]));
        if i > 0 {
            assert(type_model(types@[0]) == ms[0].data_type);
            if !same_type(&data_type, &types[0]) {
                same = false;
            }
        }
        types.push(data_type);
        i += 1;
    }
    if !same {
        return Err(types_differ(&types, Ghost(ms)));
    }
    assert(all_valid(ms));
    assert(type_model(types@[0]) == ms[0].data_type);
    assert(joinable(ms));
    let data_type = &types[0];
    match shape_of(data_type) {
        Shape::Primitive(kind) => {
            let array = concat_primitives(arrays, kind);
            proof {
                lemma_slot_nulls(ms, contents(array));
            }
            Ok(array)
        },
        Shape::Boolean => {
            let array = concat_boolean(arrays);
            proof {
                lemma_slot_nulls(ms, contents(array));
            }
            Ok(array)
        },
        Shape::Dictionary => {
            let result = concat_dictionaries(arrays, data_type);
            assert(outcome(ms, result));
            result
        },
        Shape::List { large } => concat_lists(arrays, data_type, large),
        Shape::Struct => concat_structs(arrays, data_type),
        Shape::Bytes { large } => {
            let array = concat_bytes(arrays, large);
            proof {
                lemma_slot_nulls(ms, contents(array));
            }
            Ok(array)
        },
        Shape::Runs => concat_run_arrays(arrays, data_type),
        Shape::View => {
            let array = concat_byte_view(arrays);
            proof {
                lemma_slot_nulls(ms, contents(array));
            }
            Ok(array)
        },
        Shape::FixedList(size) if !can_be_copied(arrays) => concat_fixed_lists(
            arrays,
            data_type,
            size,
        ),
        Shape::MapEntries if !can_be_copied(arrays) => concat_maps(arrays, data_type),
        Shape::Union { dense } if !can_be_copied(arrays) => concat_unions(arrays, data_type, dense),
        _ => Ok(concat_fallback(arrays, copy_capacity(arrays))),
    }
}

/// Whether all arrays have one type.
fn all_same_type(arrays: &[AnyArray]) -> (r: bool)
    ensures
        r == one_type(models(arrays@)),
{
    let ghost ms = models(arrays@);
    let mut same: bool = true;
    let mut i: usize = 0;
    while i < arrays.len()
        invariant
            0 <= i <= arrays@.len(),
            ms == models(arrays@),
            same == forall|k: int| 0 <= k < i ==> (#[trigger] ms[k]).data_type == ms[0].data_type,
        decreases arrays@.len() - i,
    {
        let data_type = arrays[i].data_type();
        let first = arrays[0].data_type();
        assert(ms[i as int] == contents(arrays@[i as int]));
        assert(ms[0] == contents(arrays@[0]));
        if !same_type(&data_type, &first) {
            same = false;
        }
        i += 1;
    }
    same
}

/// Whether arrays of one type agree with themselves, and the result of concatenating them can be
/// numbered.
pub fn within_limits(arrays: &[AnyArray]) -> (r: bool)
    ensures
        r == in_limits(models(arrays@)),
{
    !all_same_type(arrays) || all_agree(arrays) && (arrays.len() < 2 || can_concat(arrays))
}

/// Concatenates arrays of the same type into one array, if the result can be numbered: gives `None` if
/// an offset, a run end, a view buffer or a length of the result would be out of range, or an array
/// does not agree with itself.
pub fn checked_concat(arrays: &[AnyArray]) -> (r: Option<Result<AnyArray, ConcatError>>)
    ensures
        r is None <==> !in_limits(models(arrays@)),
        r matches Some(result) ==> result_of(models(arrays@), result),
        one_type(models(arrays@)) && arrays@.len() > 0 ==> (r matches Some(result) ==> traced(
            contents(arrays@[0]).data_type,
            models(arrays@),
            result,
        )),
        arrays@.len() == 1 && r is Some ==> (r matches Some(Ok(out)) && contents(out) == whole(
            contents(arrays@[0]),
        )),
{
    if !within_limits(arrays) {
        return None;
    }
    Some(concat(arrays))
}

/// The error for arrays of different types.
fn types_differ(types: &Vec<DataType>, Ghost(ms): Ghost<Seq<ArrayModel>>) -> (r: ConcatError)
    requires
        types@.len() > 0,
        types@.len() == ms.len(),
        forall|k: int|
            0 <= k < ms.len() ==> type_model(#[trigger] types@[k]) == ms[k].data_type,
    ensures
        tells_mismatch(ms, r),
{
    let mut texts: Vec<String> = Vec::with_capacity(types.len());
    let mut i: usize = 0;
    while i < types.len()
        invariant
            0 <= i <= types@.len(),
            texts@.len() == i,
            forall|k: int|
                0 <= k < i && printable(type_model(types@[k])) ==> (
                #[trigger] texts@[k])@ == type_text(type_model(types@[k])),
        decreases types@.len() - i,
    {
        texts.push(text_of(&types[i]));
        i += 1;
    }
    let message = mismatch_message(types, &texts);
    proof {
        let words = views(texts@);
        assert(type_models(types@) =~= types_of(ms));
        assert forall|k: int|
            0 <= k < ms.len() && printable(types_of(ms)[k]) implies #[trigger] words[k]
            == type_text(types_of(ms)[k]) by {
            assert(words[k] == texts@[k]@);
            assert(type_model(types@[k]) == ms[k].data_type);
        }
        assert(texts_of(words, types_of(ms)));
    }
    ConcatError::InvalidArgument(message)
}

/// Concatenates list arrays: the items that their offsets span, behind offsets counted anew.
fn concat_lists(arrays: &[AnyArray], data_type: &DataType, large: bool) -> (r: Result<
    AnyArray,
    ConcatError,
>)
    requires
        joinable(models(arrays@)),
        arrays@.len() >= 2,
        type_model(*data_type) == contents(arrays@[0]).data_type,
        contents(arrays@[0]).data_type.shape == (Shape::List { large }),
        fits(contents(arrays@[0]).data_type, models(arrays@)),
    ensures
        outcome(models(arrays@), r),
        traced(contents(arrays@[0]).data_type, models(arrays@), r),
    decreases contents(arrays@[0]).data_type, 1int,
{
    let ghost ms = models(arrays@);
    let ghost t = ms[0].data_type;
    let ghost us = used_models(ms);
    proof {
        assert(ms[0] == contents(arrays@[0]));
        assert(valid(ms[0]));
        lemma_used_type(ms);
        lemma_list_join(ms);
        lemma_joined_len(ms);
        assert forall|i: int| 0 <= i < arrays@.len() implies contents(
            #[trigger] arrays@[i],
        ).data_type == t by {
            assert(ms[i].data_type == t);
        }
        assert(lists_of(arrays@, large));
    }
    let output_len: usize = total_len(arrays);
    let nulls = concat_nulls(arrays, output_len);
    let (values, lengths) = list_parts(arrays, large);
    proof {
        assert(models(values@).len() == ms.len());
        assert(models(values@)[0] == us[0]);
        assert(contents(values@[0]) == us[0]);
        assert(as_ints(lengths@).len() == lengths@.len());
        assert(fits(t.fields[0].data_type, us));
        assert(total(us) <= usize::MAX);
    }
    let concatenated = match concat(values.as_slice()) {
        Ok(array) => array,
        Err(error) => {
            let result = Err(error);
            proof {
                lemma_part_traced(t.fields[0].data_type, us, result, result, 0);
            }
            return result;
        },
    };
    let ghost inner = Ok::<AnyArray, ConcatError>(concatenated);
    let ghost v = contents(concatenated);
    let ghost bits = option_bits(nulls);
    match list_array(data_type, lengths, &concatenated, nulls) {
        Ok(array) => {
            proof {
                let m = contents(array);
                assert(is_list(m, t, lengths@, v, bits));
                lemma_list_result(ms, m, v);
                lemma_slot_nulls(ms, m);
                lemma_nulls_reported(v);
            }
            let result = Ok(array);
            proof {
                lemma_part_traced(t.fields[0].data_type, us, inner, result, 0);
            }
            result
        },
        Err(error) => {
            proof {
                lemma_reports_holds(v);
            }
            let result = Err(ConcatError::Arrow(error));
            proof {
                lemma_part_traced(t.fields[0].data_type, us, inner, result, 0);
            }
            result
        },
    }
}

/// An array that reports nulls holds some.
proof fn lemma_reports_holds(m: ArrayModel)
    ensures
        reports_null(m) ==> holds_null(m),
    decreases m,
{
    if reports_null(m) {
        match m.data_type.shape {
            Shape::Dictionary => {
                if m.nulls is None {
                    let j = choose|j: int|
                        0 <= j < m.children.len() && reports_null(#[trigger] m.children[j]);
                    lemma_reports_holds(m.children[j]);
                }
            },
            Shape::Runs => {
                let j = choose|j: int|
                    0 <= j < m.children.len() && reports_null(#[trigger] m.children[j]);
                lemma_reports_holds(m.children[j]);
            },
            Shape::Union { .. } => {
                let j = choose|j: int|
                    0 <= j < m.children.len() && reports_null(#[trigger] m.children[j]);
                lemma_reports_holds(m.children[j]);
            },
            _ => {},
        }
    }
}

/// An array that has a null slot reports nulls.
proof fn lemma_nulls_reported(m: ArrayModel)
    requires
        valid(m),
    ensures
        m.nulls is Some ==> reports_null(m),
{
    if m.nulls is Some {
        assert(m.nulls->Some_0.contains(false));
        assert(m.len > 0);
    }
}

/// A list array of the joined lengths and items has the joined rows.
pub proof fn lemma_list_result(ms: Seq<ArrayModel>, m: ArrayModel, v: ArrayModel)
    requires
        all_valid(ms),
        ms.len() > 0,
        forall|i: int| 0 <= i < ms.len() ==> listlike(#[trigger] ms[i]),
        valid(m),
        listlike(m),
        valid(v),
        m.data_type == ms[0].data_type,
        m.nulls == joined_nulls(ms),
        m.len == total(ms),
        m.children == seq![v],
        m.offsets.len() == m.len + 1,
        m.offsets[0] == 0,
        forall|i: int|
            0 <= i < m.len ==> #[trigger] m.offsets[i + 1] == m.offsets[i] + joined_gaps(ms)[i],
        rows(v) == joined(used_models(ms)),
        v.len == total(used_models(ms)),
    ensures
        concatenates(ms, m),
        gaps(m) == joined_gaps(ms),
        m.offsets.last() == v.len,
{
    lemma_list_join(ms);
    lemma_joined_len(ms);
    lemma_list_rows(m);
    assert(gaps(m) =~= joined_gaps(ms));
    lemma_validity(m, joined_validity(ms));
    assert(extent(m) == v.len);
    assert(m.children[0] == v);
    assert(m.offsets.last() == m.offsets[m.len as int]);
    lemma_whole_slice(v);
    assert(used(m) == sliced(v, 0, v.len as int));
}

/// Concatenates struct arrays column by column.
fn concat_structs(arrays: &[AnyArray], data_type: &DataType) -> (r: Result<AnyArray, ConcatError>)
    requires
        joinable(models(arrays@)),
        arrays@.len() >= 2,
        type_model(*data_type) == contents(arrays@[0]).data_type,
        contents(arrays@[0]).data_type.shape is Struct,
        fits(contents(arrays@[0]).data_type, models(arrays@)),
    ensures
        outcome(models(arrays@), r),
        traced(contents(arrays@[0]).data_type, models(arrays@), r),
    decreases contents(arrays@[0]).data_type, 1int,
{
    let ghost ms = models(arrays@);
    let ghost t = ms[0].data_type;
    let ghost n = t.fields.len();
    proof {
        assert(ms[0] == contents(arrays@[0]));
        assert(valid(ms[0]));
        assert forall|i: int| 0 <= i < ms.len() implies (#[trigger] ms[i]).data_type.shape is Struct
            && ms[i].children.len() == n by {
            assert(valid(ms[i]));
            assert(ms[i].data_type == t);
        }
        lemma_struct_join(ms, n);
        lemma_joined_len(ms);
    }
    let len: usize = total_len(arrays);
    let nulls = concat_nulls(arrays, len);
    let width: usize = arrays[0].num_columns();
    let mut columns: Vec<AnyArray> = Vec::with_capacity(width);
    let mut j: usize = 0;
    while j < width
        invariant
            0 <= j <= width,
            width == n,
            n == t.fields.len(),
            ms == models(arrays@),
            joinable(ms),
            ms.len() >= 2,
            t == ms[0].data_type,
            t.shape is Struct,
            fits(t, ms),
            forall|i: int|
                0 <= i < ms.len() ==> (#[trigger] ms[i]).data_type.shape is Struct
                    && ms[i].children.len() == n,
            columns@.len() == j,
            forall|k: int|
                0 <= k < j ==> {
                    &&& concatenates(child_models(ms, k), contents(#[trigger] columns@[k]))
                    &&& child_models(ms, k)[0].data_type == t.fields[k].data_type
                    &&& laid_out(
                        t.fields[k].data_type,
                        child_models(ms, k),
                        contents(columns@[k]),
                    )
                    &&& traced(t.fields[k].data_type, child_models(ms, k), Ok(columns@[k]))
                },
            columns_pass(t, ms, j as int),
        decreases width - j, 0int,
    {
        let ghost field = t.fields[j as int];
        proof {
            lemma_children(ms, j as int);
            assert forall|i: int| 0 <= i < arrays@.len() implies j < contents(
                #[trigger] arrays@[i],
            ).children.len() && contents(arrays@[i]).data_type.shape !is Runs by {
                assert(ms[i] == contents(arrays@[i]));
            }
        }
        let extracted = children(arrays, j);
        proof {
            assert(models(extracted@).len() == ms.len());
            assert(models(extracted@)[0] == child_models(ms, j as int)[0]);
            assert(contents(extracted@[0]).data_type == t.fields[j as int].data_type);
            assert(fits(t.fields[j as int].data_type, child_models(ms, j as int)));
        }
        match concat(extracted.as_slice()) {
            Ok(column) => {
                columns.push(column);
            },
            Err(error) => {
                assert(explained(t.fields[j as int].data_type, child_models(ms, j as int), error));
                let result = Err(error);
                assert(traced(t.fields[j as int].data_type, child_models(ms, j as int), result));
                return result;
            },
        }
        j += 1;
    }
    proof {
        lemma_struct_join(ms, n);
        assert forall|k: int| 0 <= k < columns@.len() implies {
            &&& contents(#[trigger] columns@[k]).len == len
            &&& contents(columns@[k]).data_type == t.fields[k].data_type
        } by {
            assert(concatenates(child_models(ms, k), contents(columns@[k])));
            assert(total(child_models(ms, k)) == total(ms));
        }
        assert forall|k: int| 0 <= k < n implies column_rows(columns@)[k] == #[trigger] joined_columns(
            ms,
            n,
        )[k] by {
            assert(concatenates(child_models(ms, k), contents(columns@[k])));
        }
        assert(column_rows(columns@) =~= joined_columns(ms, n));
    }
    let ghost column_models = models(columns@);
    let ghost column_values = column_rows(columns@);
    match struct_array(data_type, columns, nulls, len) {
        Ok(array) => {
            proof {
                let m = contents(array);
                assert(m.children == column_models);
                lemma_struct_rows(m);
                lemma_validity(m, joined_validity(ms));
                assert(child_rows(m) =~= column_values);
                lemma_slot_nulls(ms, m);
                assert forall|j: int| 0 <= j < n implies {
                    &&& concatenates(child_models(ms, j), m.children[j])
                    &&& laid_out(
                        (#[trigger] t.fields[j]).data_type,
                        child_models(ms, j),
                        m.children[j],
                    )
                } by {
                    assert(m.children[j] == contents(columns@[j]));
                }
                let result = Ok::<AnyArray, ConcatError>(array);
                assert forall|j: int| 0 <= j < n implies part_traced(
                    (#[trigger] t.fields[j]).data_type,
                    child_models(ms, j),
                    result,
                    j,
                ) by {
                    let inner = Ok::<AnyArray, ConcatError>(columns@[j]);
                    assert(m.children[j] == contents(columns@[j]));
                    lemma_part_traced(t.fields[j].data_type, child_models(ms, j), inner, result, j);
                }
            }
            Ok(array)
        },
        Err(error) => {
            let result = Err(ConcatError::Arrow(error));
            result
        },
    }
}

/// The rows of a run-end encoded array that is no slice are made of its runs.
proof fn lemma_runs_rows(m: ArrayModel)
    requires
        valid(m),
        m.data_type.shape is Runs,
        m.offset == 0,
    ensures
        rows(m) == run_rows(m.ints, rows(m.children[0]), 0, m.len as int),
{
    let made = run_rows(m.ints, rows(m.children[0]), 0, m.len as int);
    assert forall|i: int| 0 <= i < m.len implies rows(m)[i] == #[trigger] made[i] by {
        let k = run_of(m.ints, i);
        lemma_run_of(m.ints, i);
        if k == m.ints.len() {
            assert(m.ints[k - 1] <= i);
        }
        assert(row(m, i) == child_row(m, 0, k));
        assert(child_row(m, 0, k) == row(m.children[0], k));
    }
    assert(rows(m) =~= made);
}

/// Run ends as mathematical integers.
pub open spec fn end_ints(ends: Seq<i64>) -> Seq<int> {
    Seq::new(ends.len(), |i: int| ends[i] as int)
}

/// Appends the runs that the rows of an array lie in, behind `base` rows.
fn append_runs(array: &AnyArray, ends: &mut Vec<i64>, base: i64)
    requires
        valid(contents(*array)),
        contents(*array).data_type.shape is Runs,
        contents(*array).len > 0,
        0 <= base,
        base + contents(*array).len <= i64::MAX,
    ensures
        end_ints(final(ends)@) == end_ints(old(ends)@) + shifted_ends(
            contents(*array),
            base as int,
        ),
{
    let ghost m = contents(*array);
    let ghost before = ends@;
    let len: usize = array.len();
    let offset: usize = array.run_offset();
    let stored = array.run_ends();
    let runs: usize = stored.len();
    let (first, count) = run_bounds(array, &stored);
    proof {
        lemma_run_bounds(m);
        assert(stored@[m.ints.len() - 1] == m.ints.last());
        assert(end_ints(ends@) =~= end_ints(before) + shifted_ends(m, base as int).take(0));
    }
    let stop: i64 = offset as i64 + len as i64;
    let mut r: usize = 0;
    while r < count
        invariant
            0 <= r <= count,
            m == contents(*array),
            valid(m),
            m.data_type.shape is Runs,
            m.len > 0,
            first == first_run(m),
            count == run_count(m),
            first + count <= m.ints.len(),
            stored@.len() == m.ints.len(),
            forall|i: int| 0 <= i < stored@.len() ==> #[trigger] stored@[i] == m.ints[i],
            len == m.len,
            offset == m.offset,
            stop == m.offset + m.len,
            0 <= base,
            base + m.len <= i64::MAX,
            stored@.len() == runs,
            end_ints(ends@) == end_ints(before) + shifted_ends(m, base as int).take(r as int),
        decreases count - r,
    {
        let end: i64 = stored[first + r];
        let ghost here = ends@;
        proof {
            assert(end == m.ints[first + r]);
            lemma_run_of(m.ints, m.offset as int);
            if r > 0 {
                assert(m.ints[first as int] < m.ints[first + r]);
            }
            assert(end > m.offset);
            lemma_take_step(shifted_ends(m, base as int), r as int);
        }
        if end < stop {
            ends.push(end - offset as i64 + base);
        } else {
            ends.push(base + len as i64);
        }
        assert(end_ints(ends@) =~= end_ints(here).push(shifted_ends(m, base as int)[r as int]));
        assert(end_ints(ends@) =~= end_ints(before) + shifted_ends(m, base as int).take(r + 1));
        r += 1;
    }
    assert(shifted_ends(m, base as int).take(r as int) =~= shifted_ends(m, base as int));
}

/// Concatenates run-end encoded arrays:
/// the runs of all arrays are collected, their ends are shifted by the number of the rows before them,
/// and the values of the runs are concatenated.
fn concat_run_arrays(arrays: &[AnyArray], data_type: &DataType) -> (r: Result<
    AnyArray,
    ConcatError,
>)
    requires
        joinable(models(arrays@)),
        arrays@.len() >= 2,
        type_model(*data_type) == contents(arrays@[0]).data_type,
        contents(arrays@[0]).data_type.shape is Runs,
        fits(contents(arrays@[0]).data_type, models(arrays@)),
    ensures
        outcome(models(arrays@), r),
        traced(contents(arrays@[0]).data_type, models(arrays@), r),
    decreases contents(arrays@[0]).data_type, 1int,
{
    let ghost ms = models(arrays@);
    let ghost t = ms[0].data_type;
    proof {
        assert(ms[0] == contents(arrays@[0]));
        assert(valid(ms[0]));
        assert forall|i: int| 0 <= i < arrays@.len() implies contents(
            #[trigger] arrays@[i],
        ).data_type == t by {
            assert(ms[i].data_type == t);
        }
        assert(runs_of(arrays@));
        lemma_run_models(ms);
    }
    let kind = index_kind(data_type);
    let values = run_parts(arrays);
    assert(models(values@).len() == run_models(ms).len());
    if values.len() == 0 {
        return Err(nothing_to_concat());
    }
    let mut ends: Vec<i64> = Vec::new();
    let mut base: i64 = 0;
    let mut i: usize = 0;
    proof {
        assert(ms.take(0) =~= Seq::empty());
        assert(run_models(ms.take(0)) =~= Seq::empty());
        assert(end_ints(ends@) =~= Seq::empty());
        assert(joined(ms.take(0)) =~= run_rows(
            end_ints(ends@),
            joined(run_models(ms.take(0))),
            0,
            0,
        ));
    }
    while i < arrays.len()
        invariant
            0 <= i <= arrays@.len(),
            ms == models(arrays@),
            joinable(ms),
            ms.len() >= 2,
            t == ms[0].data_type,
            t.shape is Runs,
            total(ms) <= index_max(t) <= i64::MAX,
            base == total(ms.take(i as int)),
            rising(end_ints(ends@)),
            end_ints(ends@) == joined_ends(ms.take(i as int)),
            ends@.len() == joined(run_models(ms.take(i as int))).len(),
            ends@.len() == 0 ==> base == 0,
            ends@.len() > 0 ==> ends@.last() == base && ends@[0] > 0,
            joined(ms.take(i as int)) == run_rows(
                end_ints(ends@),
                joined(run_models(ms.take(i as int))),
                0,
                base as int,
            ),
        decreases arrays@.len() - i,
    {
        let ghost m = ms[i as int];
        let ghost front = ms.take(i as int);
        proof {
            assert(m == contents(arrays@[i as int]));
            assert(valid(m));
            assert(m.data_type == t);
            lemma_take_step(ms, i as int);
            lemma_total_prefix(ms, i + 1);
        }
        let len: usize = arrays[i].len();
        if len > 0 {
            let ghost before = end_ints(ends@);
            let ghost before_values = joined(run_models(front));
            proof {
                lemma_run_step(before, before_values, base as int, m);
                lemma_run_bounds(m);
            }
            append_runs(&arrays[i], &mut ends, base);
            proof {
                let all = run_models(ms.take(i + 1));
                assert(all == run_models(front).push(run_values(m)));
                assert(all.drop_last() =~= run_models(front));
                assert(joined(all) == before_values + rows(run_values(m)));
                assert(end_ints(ends@).len() == ends@.len());
                assert(end_ints(ends@).last() == ends@.last());
                assert(end_ints(ends@)[0] == ends@[0]);
            }
            base += len as i64;
        } else {
            proof {
                assert(rows(m) =~= Seq::empty());
                assert(joined(front) + rows(m) =~= joined(front));
            }
        }
        i += 1;
    }
    proof {
        assert(ms.take(i as int) =~= ms);
        assert(contents(values@[0]) == run_models(ms)[0]);
        assert(models(values@) == run_models(ms));
        assert(fits(t.fields[1].data_type, run_models(ms)));
    }
    let all_values = match concat(values.as_slice()) {
        Ok(array) => array,
        Err(error) => {
            let result = Err(error);
            proof {
                lemma_part_traced(t.fields[1].data_type, run_models(ms), result, result, 0);
            }
            return result;
        },
    };
    let ghost inner = Ok::<AnyArray, ConcatError>(all_values);
    let ghost v = contents(all_values);
    let ghost ints = end_ints(ends@);
    let total_len: usize = total_len(arrays);
    proof {
        lemma_joined_len(run_models(ms));
        lemma_first_run_values(ms);
        assert forall|k: int| 0 <= k < ends@.len() implies 0 < #[trigger] ends@[k]
            <= index_max(t) by {
            if k > 0 {
                assert(ints[0] < ints[k]);
            }
            if k < ends@.len() - 1 {
                assert(ints[k] < ints[ends@.len() - 1]);
            }
        }
        assert forall|k: int, q: int| 0 <= k < q < ends@.len() implies #[trigger] ends@[k]
            < #[trigger] ends@[q] by {
            assert(ints[k] < ints[q]);
        }
    }
    match run_array(arrays[0].data_type(), kind, ends, &all_values, total_len) {
        Ok(array) => {
            proof {
                let m = contents(array);
                assert(m.ints =~= ints);
                lemma_runs_rows(m);
                assert(m.children[0] == v);
                lemma_joined_nulls(ms);
                assert forall|k: int| 0 <= k < ms.len() implies (#[trigger] ms[k]).nulls is None by {
                    assert(valid(ms[k]));
                    assert(ms[k].data_type == t);
                }
                if holds_null(m) {
                    assert(holds_null(v));
                    lemma_run_nulls(ms);
                }
            }
            let result = Ok(array);
            proof {
                lemma_part_traced(t.fields[1].data_type, run_models(ms), inner, result, 0);
            }
            result
        },
        Err(error) => {
            proof {
                assert(run_values_of(t.fields[1].data_type, run_models(ms), v));
            }
            let result = Err(ConcatError::Arrow(error));
            proof {
                lemma_part_traced(t.fields[1].data_type, run_models(ms), inner, result, 0);
            }
            result
        },
    }
}

/// Run values hold a null only where one of the run-end encoded arrays does.
proof fn lemma_run_nulls(ms: Seq<ArrayModel>)
    requires
        all_valid(ms),
        one_type(ms),
        ms.len() > 0 ==> ms[0].data_type.shape is Runs,
        some_hold_null(run_models(ms)),
    ensures
        some_hold_null(ms),
    decreases ms.len(),
{
    if ms.len() > 0 {
        let front = ms.drop_last();
        let last = ms[ms.len() - 1];
        assert(valid(last));
        assert(last.data_type == ms[0].data_type);
        let i = choose|i: int|
            0 <= i < run_models(ms).len() && holds_null(#[trigger] run_models(ms)[i]);
        if i < run_models(front).len() {
            assert forall|k: int| 0 <= k < front.len() implies valid(#[trigger] front[k])
                && front[k].data_type == ms[0].data_type by {
                assert(front[k] == ms[k]);
            }
            assert(run_models(front)[i] == run_models(ms)[i]);
            lemma_run_nulls(front);
            let k = choose|k: int| 0 <= k < front.len() && holds_null(#[trigger] front[k]);
            assert(holds_null(ms[k]));
        } else {
            lemma_run_bounds(last);
            assert(valid(last.children[0]));
            lemma_sliced_holds(last.children[0], first_run(last), run_count(last));
            assert(holds_null(last.children[0]));
            assert(holds_null(ms[ms.len() - 1]));
        }
    }
}

/// Run-end encoded arrays that have rows have run values.
proof fn lemma_first_run_values(ms: Seq<ArrayModel>)
    requires
        all_valid(ms),
        one_type(ms),
        ms.len() > 0,
        ms[0].data_type.shape is Runs,
        run_models(ms).len() > 0,
    ensures
        total(run_models(ms)) > 0,
    decreases ms.len(),
{
    let front = ms.drop_last();
    let last = ms[ms.len() - 1];
    assert(valid(last));
    assert(last.data_type == ms[0].data_type);
    if last.len > 0 {
        lemma_run_bounds(last);
        assert(run_models(ms).drop_last() =~= run_models(front));
    } else {
        assert forall|i: int| 0 <= i < front.len() implies valid(#[trigger] front[i])
            && front[i].data_type == ms[0].data_type by {
            assert(front[i] == ms[i]);
        }
        lemma_first_run_values(front);
    }
}

} // verus!

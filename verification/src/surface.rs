//! What the functions that callers call give them, from what goes in to what comes out.
use arrow_schema::{ArrowError, DataType, Schema};
use std::sync::Arc;
use vstd::prelude::*;

use crate::batches::{
    batch_models, batches_in_limits, batches_result, checked_concat_batches, columns_traced,
    concat_batches, schema_of,
};
use crate::concat::{checked_concat, concat, in_limits, result_of, traced, within_limits};
use crate::dictionary::{
    concat_known_dictionaries, dictionary_error, should_merge_dictionary_values,
};
use crate::error::ConcatError;
use crate::joins::{all_alike, all_valid, one_type};
use crate::kernels::joinable;
use crate::laws::never_fails;
use crate::layouts::{
    lemma_known_values, merges, values_are_kept, values_are_merged, values_are_stacked,
};
use crate::ledger::{
    batches_are_within_the_limits, columns_at, columns_hold_all, columns_suit, lemma_columns_suit,
    lemma_rows_of, rows_of, suited_batches_are_concatenated,
};
use crate::limits::child_models;
use crate::model::{index_max, valid, ArrayModel, Shape};
use crate::outside::{contents, models, type_model, AnyArray};
use crate::promises::{
    carefree_arrays_are_concatenated, column_of, dictionaries_are_concatenated,
    different_types_are_refused, errors_suit_the_type, few_arrays_are_within_the_limits,
    flat_arrays_are_within_the_limits, holds_all, items_of, lemma_holds_all, lists_are_concatenated,
    lists_are_within_the_limits, more_values_than, one_array_is_given_back, runs_are_concatenated,
    runs_are_within_the_limits, slots, spanned, strings_are_within_the_limits, success_gives_all,
    views_are_within_the_limits, pointed_into,
};
use crate::records::{batch_contents, schema_model, Batch};

verus! {

// Arrays

/// Arrays are concatenated by [`checked_concat`] if and only if they are within the limits, which
/// [`within_limits`] tells, and just as [`concat`] concatenates them.
pub proof fn limits_decide(
    arrays: &[AnyArray],
    within: bool,
    checked: Option<Result<AnyArray, ConcatError>>,
)
    requires
        call_ensures(within_limits, (arrays,), within),
        call_ensures(checked_concat, (arrays,), checked),
    ensures
        within == in_limits(models(arrays@)),
        checked is Some <==> within,
        checked matches Some(result) ==> result_of(models(arrays@), result),
        checked matches Some(result) ==> (arrays@.len() > 0 && one_type(models(arrays@)) ==> traced(
            contents(arrays@[0]).data_type,
            models(arrays@),
            result,
        )),
{
}

/// What [`concat`] gives of arrays within the limits.
pub proof fn concat_gives(arrays: &[AnyArray], result: Result<AnyArray, ConcatError>)
    requires
        in_limits(models(arrays@)),
        call_ensures(concat, (arrays,), result),
    ensures
        result_of(models(arrays@), result),
        arrays@.len() > 0 && one_type(models(arrays@)) ==> traced(
            contents(arrays@[0]).data_type,
            models(arrays@),
            result,
        ),
        arrays@.len() > 0 && result is Ok ==> one_type(models(arrays@)) && holds_all(
            models(arrays@),
            contents(result->Ok_0),
        ),
{
    let ms = models(arrays@);
    if ms.len() > 0 && result is Ok {
        if !one_type(ms) {
            different_types_are_refused(ms, result);
        }
        success_gives_all(ms, result);
    }
}

/// No array at all, one array, and arrays of different types.
pub proof fn checked_concat_of_few_arrays(
    arrays: &[AnyArray],
    r: Option<Result<AnyArray, ConcatError>>,
)
    requires
        call_ensures(checked_concat, (arrays,), r),
    ensures
        arrays@.len() == 0 ==> (r matches Some(Err(ConcatError::Compute(text))) && text@
            == "concat requires input of at least one array"@),
        arrays@.len() == 1 && valid(contents(arrays@[0])) ==> (r matches Some(Ok(out)) && holds_all(
            models(arrays@),
            contents(out),
        )),
        arrays@.len() >= 2 && !one_type(models(arrays@)) ==> (r matches Some(
            Err(ConcatError::InvalidArgument(_)),
        )),
{
    let ms = models(arrays@);
    if arrays@.len() == 0 || !one_type(ms) {
        few_arrays_are_within_the_limits(ms);
        different_types_are_refused(ms, r->Some_0);
        errors_suit_the_type(ms, r->Some_0->Err_0);
    }
    if arrays@.len() == 1 && valid(contents(arrays@[0])) {
        assert(ms =~= seq![contents(arrays@[0])]);
        few_arrays_are_within_the_limits(ms);
        one_array_is_given_back(ms[0], r->Some_0);
    }
}

/// Whatever [`checked_concat`] makes of arrays that agree with themselves holds all of them.
pub proof fn checked_concat_holds_all(arrays: &[AnyArray], r: Option<Result<AnyArray, ConcatError>>)
    requires
        call_ensures(checked_concat, (arrays,), r),
        arrays@.len() > 0,
        r matches Some(Ok(_)),
    ensures
        one_type(models(arrays@)),
        holds_all(models(arrays@), contents(r->Some_0->Ok_0)),
{
    let ms = models(arrays@);
    if !one_type(ms) {
        different_types_are_refused(ms, r->Some_0);
    }
    success_gives_all(ms, r->Some_0);
}

/// Arrays whose slots are all of one width, bits or nulls are concatenated, however many there are and
/// however long, if their slots can be counted.
pub proof fn checked_concat_joins_flat_arrays(
    arrays: &[AnyArray],
    r: Option<Result<AnyArray, ConcatError>>,
)
    requires
        call_ensures(checked_concat, (arrays,), r),
        all_valid(models(arrays@)),
        one_type(models(arrays@)),
        arrays@.len() > 0,
        match contents(arrays@[0]).data_type.shape {
            Shape::Null => true,
            Shape::Boolean => true,
            Shape::Primitive(_) => true,
            Shape::FixedBinary(_) => true,
            _ => false,
        },
        slots(models(arrays@)) <= usize::MAX,
    ensures
        r matches Some(Ok(out)) && holds_all(models(arrays@), contents(out)),
{
    let ms = models(arrays@);
    assert(ms[0] == contents(arrays@[0]));
    flat_arrays_are_within_the_limits(ms);
    carefree_arrays_are_concatenated(ms, r->Some_0);
}

/// Strings and byte strings are concatenated if offsets can number their bytes.
pub proof fn checked_concat_joins_strings(
    arrays: &[AnyArray],
    large: bool,
    r: Option<Result<AnyArray, ConcatError>>,
)
    requires
        call_ensures(checked_concat, (arrays,), r),
        all_valid(models(arrays@)),
        one_type(models(arrays@)),
        arrays@.len() > 0,
        contents(arrays@[0]).data_type.shape == (Shape::Bytes { large }),
        slots(models(arrays@)) <= usize::MAX,
        spanned(models(arrays@)) <= usize::MAX,
        spanned(models(arrays@)) <= if large {
            i64::MAX as int
        } else {
            i32::MAX as int
        },
    ensures
        r matches Some(Ok(out)) && holds_all(models(arrays@), contents(out)),
{
    let ms = models(arrays@);
    assert(ms[0] == contents(arrays@[0]));
    strings_are_within_the_limits(ms, large);
    carefree_arrays_are_concatenated(ms, r->Some_0);
}

/// Views are concatenated if their buffers can be numbered.
pub proof fn checked_concat_joins_views(
    arrays: &[AnyArray],
    r: Option<Result<AnyArray, ConcatError>>,
)
    requires
        call_ensures(checked_concat, (arrays,), r),
        all_valid(models(arrays@)),
        one_type(models(arrays@)),
        arrays@.len() > 0,
        contents(arrays@[0]).data_type.shape is View,
        slots(models(arrays@)) <= usize::MAX,
        pointed_into(models(arrays@)) <= u32::MAX,
    ensures
        r matches Some(Ok(out)) && holds_all(models(arrays@), contents(out)),
{
    let ms = models(arrays@);
    assert(ms[0] == contents(arrays@[0]));
    views_are_within_the_limits(ms);
    carefree_arrays_are_concatenated(ms, r->Some_0);
}

/// Dictionaries of strings or numbers are concatenated, however many there are, if keys can number the
/// different values in their slots and their values are within the limits.
pub proof fn checked_concat_joins_dictionaries(
    arrays: &[AnyArray],
    r: Option<Result<AnyArray, ConcatError>>,
)
    requires
        call_ensures(checked_concat, (arrays,), r),
        all_valid(models(arrays@)),
        one_type(models(arrays@)),
        arrays@.len() > 0,
        contents(arrays@[0]).data_type.shape is Dictionary,
        contents(arrays@[0]).data_type.fields[1].data_type.shape is Bytes || contents(
            arrays@[0],
        ).data_type.fields[1].data_type.shape is Primitive,
        slots(models(arrays@)) <= usize::MAX,
        in_limits(column_of(models(arrays@), 0)),
        !more_values_than(models(arrays@), index_max(contents(arrays@[0]).data_type) + 1),
    ensures
        r matches Some(Ok(out)) && holds_all(models(arrays@), contents(out)),
{
    let ms = models(arrays@);
    assert(ms[0] == contents(arrays@[0]));
    flat_arrays_are_within_the_limits(ms);
    dictionaries_are_concatenated(ms, r->Some_0);
}

/// Runs of numbers, byte strings of one width or nulls are concatenated, however many arrays there are, if
/// one has a row, run ends can number the rows, and the field of the run ends takes no null.
pub proof fn checked_concat_joins_runs(
    arrays: &[AnyArray],
    i: int,
    r: Option<Result<AnyArray, ConcatError>>,
)
    requires
        call_ensures(checked_concat, (arrays,), r),
        all_valid(models(arrays@)),
        one_type(models(arrays@)),
        0 <= i < arrays@.len(),
        contents(arrays@[i]).len > 0,
        contents(arrays@[0]).data_type.shape is Runs,
        !contents(arrays@[0]).data_type.fields[0].nullable,
        contents(arrays@[0]).data_type.fields[1].data_type.fields.len() == 0,
        match contents(arrays@[0]).data_type.fields[1].data_type.shape {
            Shape::Null => true,
            Shape::Primitive(_) => true,
            Shape::FixedBinary(_) => true,
            _ => false,
        },
        slots(models(arrays@)) <= usize::MAX,
        slots(models(arrays@)) <= index_max(contents(arrays@[0]).data_type),
    ensures
        r matches Some(Ok(out)) && holds_all(models(arrays@), contents(out)),
{
    let ms = models(arrays@);
    assert(ms[0] == contents(arrays@[0]));
    assert(ms[i] == contents(arrays@[i]));
    runs_are_within_the_limits(ms);
    runs_are_concatenated(ms, i, r->Some_0);
}

/// Lists of what never fails are concatenated if their field takes nulls, their items are within the
/// limits, and offsets can number them.
pub proof fn checked_concat_joins_lists(
    arrays: &[AnyArray],
    large: bool,
    r: Option<Result<AnyArray, ConcatError>>,
)
    requires
        call_ensures(checked_concat, (arrays,), r),
        all_valid(models(arrays@)),
        one_type(models(arrays@)),
        arrays@.len() > 0,
        contents(arrays@[0]).data_type.shape == (Shape::List { large }),
        contents(arrays@[0]).data_type.fields[0].nullable,
        never_fails(contents(arrays@[0]).data_type.fields[0].data_type),
        slots(models(arrays@)) <= usize::MAX,
        slots(items_of(models(arrays@))) <= if large {
            i64::MAX as int
        } else {
            i32::MAX as int
        },
        in_limits(items_of(models(arrays@))),
    ensures
        r matches Some(Ok(out)) && holds_all(models(arrays@), contents(out)),
{
    let ms = models(arrays@);
    assert(ms[0] == contents(arrays@[0]));
    lists_are_within_the_limits(ms, large);
    lists_are_concatenated(ms, r->Some_0);
}

/// Dictionaries that are known to be shared are always concatenated and kept; others are merged if they are
/// to be, and put one array after the other otherwise.
pub proof fn known_dictionaries_are_treated_as_told(
    arrays: &[AnyArray],
    data_type: &DataType,
    shared: bool,
    result: Result<AnyArray, ConcatError>,
)
    requires
        joinable(models(arrays@)),
        arrays@.len() >= 2,
        type_model(*data_type) == contents(arrays@[0]).data_type,
        contents(arrays@[0]).data_type.shape is Dictionary,
        shared ==> all_alike(child_models(models(arrays@), 0)),
        call_ensures(concat_known_dictionaries, (arrays, data_type, shared), result),
    ensures
        shared ==> result is Ok,
        result matches Ok(out) ==> {
            &&& holds_all(models(arrays@), contents(out))
            &&& shared ==> values_are_kept(models(arrays@), contents(out))
            &&& !shared && merges(models(arrays@)) ==> values_are_merged(
                models(arrays@),
                contents(out),
            )
            &&& !shared && !merges(models(arrays@)) ==> values_are_stacked(
                models(arrays@),
                contents(out),
            )
        },
        result matches Err(error) ==> result_of(models(arrays@), Err(error)),
{
    let ms = models(arrays@);
    assert(ms[0] == contents(arrays@[0]));
    if result is Ok {
        lemma_known_values(ms, contents(result->Ok_0), shared);
        lemma_holds_all(ms, contents(result->Ok_0));
    } else {
        lemma_known_error(ms, result->Err_0);
    }
}

/// Keys overflow in dictionaries that are not shared only where they cannot number their values, or in the
/// values.
proof fn lemma_known_error(ms: Seq<ArrayModel>, error: ConcatError)
    requires
        all_valid(ms),
        one_type(ms),
        ms.len() >= 2,
        ms[0].data_type.shape is Dictionary,
        dictionary_error(ms, error),
    ensures
        result_of(ms, Err(error)),
{
    assert(valid(ms[0]));
}

/// Values are merged if they are not shared, can be compared, and are more than keys can number, or no
/// fewer than slots.
pub proof fn merging_is_decided(
    shared: bool,
    shape: Shape,
    values: Option<usize>,
    max: i128,
    len: usize,
    r: bool,
)
    requires
        call_ensures(should_merge_dictionary_values, (shared, shape, values, max, len), r),
    ensures
        shared ==> !r,
        !(shape is Bytes) && !(shape is Primitive) ==> !r,
        !shared && (shape is Bytes || shape is Primitive) ==> match values {
            Some(n) => r <==> n > max || n >= len,
            None => r,
        },
{
}

// Batches

/// Batches are concatenated by [`checked_concat_batches`] if and only if they are within the limits, and
/// just as [`concat_batches`] concatenates them.
pub proof fn batch_limits_decide(
    schema: &Arc<Schema>,
    batches: &[Batch],
    checked: Option<Result<Batch, ConcatError>>,
)
    requires
        call_ensures(checked_concat_batches, (schema, batches), checked),
    ensures
        checked is Some <==> batches_in_limits(schema_of(schema), batch_models(batches@)),
        checked matches Some(result) ==> {
            &&& batches_result(schema_of(schema), batch_models(batches@), result)
            &&& columns_traced(schema_of(schema), batch_models(batches@), result)
        },
{
}

/// What [`concat_batches`] gives of batches within the limits.
pub proof fn concat_batches_gives(
    schema: &Arc<Schema>,
    batches: &[Batch],
    result: Result<Batch, ConcatError>,
)
    requires
        batches_in_limits(schema_of(schema), batch_models(batches@)),
        call_ensures(concat_batches, (schema, batches), result),
    ensures
        batches_result(schema_of(schema), batch_models(batches@), result),
        columns_traced(schema_of(schema), batch_models(batches@), result),
{
}

/// Under a schema without fields the rows of all batches are counted.
pub proof fn checked_concat_batches_counts_rows(
    schema: &Arc<Schema>,
    batches: &[Batch],
    r: Option<Result<Batch, ConcatError>>,
)
    requires
        call_ensures(checked_concat_batches, (schema, batches), r),
        schema_of(schema).fields.len() == 0,
        rows_of(batch_models(batches@)) <= usize::MAX,
    ensures
        r matches Some(Ok(b)) && batch_contents(b).schema == schema_of(schema) && batch_contents(
            b,
        ).columns.len() == 0 && batch_contents(b).len == rows_of(batch_models(batches@)),
{
    let bs = batch_models(batches@);
    batches_are_within_the_limits(schema_of(schema), bs);
    lemma_rows_of(bs);
}

/// Batches of columns that suit the schema, never fail and are within the limits are concatenated, however
/// many there are: the result has the schema, all rows, and in each column all of that column.
pub proof fn checked_concat_batches_joins_columns(
    schema: &Arc<Schema>,
    batches: &[Batch],
    r: Option<Result<Batch, ConcatError>>,
    i: int,
)
    requires
        call_ensures(checked_concat_batches, (schema, batches), r),
        batches@.len() > 0,
        0 <= i < schema_of(schema).fields.len(),
        forall|k: int|
            0 <= k < batches@.len() ==> (#[trigger] batch_models(batches@)[k]).columns.len()
                >= schema_of(schema).fields.len(),
        forall|j: int|
            0 <= j < schema_of(schema).fields.len() ==> {
                &&& never_fails((#[trigger] schema_of(schema).fields[j]).data_type)
                &&& columns_suit(schema_of(schema), batch_models(batches@), j)
                &&& in_limits(columns_at(batch_models(batches@), j))
            },
    ensures
        r matches Some(Ok(b)) && {
            &&& batch_contents(b).schema == schema_of(schema)
            &&& batch_contents(b).len == rows_of(batch_models(batches@))
            &&& batch_contents(b).columns.len() == schema_of(schema).fields.len()
            &&& holds_all(columns_at(batch_models(batches@), i), batch_contents(b).columns[i])
        },
{
    let s = schema_of(schema);
    let bs = batch_models(batches@);
    assert forall|j: int| 0 <= j < s.fields.len() implies in_limits(
        #[trigger] columns_at(bs, j),
    ) by {
        let field = s.fields[j];
    }
    batches_are_within_the_limits(s, bs);
    suited_batches_are_concatenated(s, bs, r->Some_0);
    let field = s.fields[i];
    lemma_columns_suit(s, bs, i);
    columns_hold_all(s, bs, r->Some_0, i);
}

// Handles

/// An array is valid if and only if it says so.
pub proof fn validity_is_told(array: &AnyArray, r: bool)
    requires
        call_ensures(AnyArray::is_valid, (array,), r),
    ensures
        r == valid(contents(*array)),
{
}

/// A batch made of columns has just those columns, and is given back column by column.
pub proof fn batches_hold_their_columns(
    schema: Arc<Schema>,
    columns: Vec<AnyArray>,
    made: Result<Batch, ArrowError>,
    batch: &Batch,
    index: usize,
    column: Option<AnyArray>,
    rows: usize,
    width: usize,
    own: Arc<Schema>,
)
    requires
        call_ensures(Batch::try_new, (schema, columns), made),
        made matches Ok(b) && b == *batch,
        call_ensures(Batch::column, (batch, index), column),
        call_ensures(Batch::num_rows, (batch,), rows),
        call_ensures(Batch::num_columns, (batch,), width),
        call_ensures(Batch::schema, (batch,), own),
    ensures
        width == columns@.len(),
        width == schema_model(*schema).fields.len(),
        rows == contents(columns@[0]).len,
        schema_model(*own) == schema_model(*schema),
        column is Some <==> index < width,
        column matches Some(array) ==> contents(array) == contents(columns@[index as int]),
{
    assert(models(columns@).len() == columns@.len());
    if column is Some {
        assert(models(columns@)[index as int] == contents(columns@[index as int]));
    }
}

/// A batch without columns can be made of any number of rows if the schema has no fields, and has those
/// rows.
pub proof fn rows_are_kept_without_columns(
    schema: Arc<Schema>,
    rows: usize,
    made: Result<Batch, ArrowError>,
    batch: &Batch,
    index: usize,
    column: Option<AnyArray>,
    counted: usize,
)
    requires
        call_ensures(Batch::without_columns, (schema, rows), made),
        made matches Ok(b) ==> b == *batch,
        call_ensures(Batch::num_rows, (batch,), counted),
        call_ensures(Batch::column, (batch, index), column),
    ensures
        made is Ok <==> schema_model(*schema).fields.len() == 0,
        made is Ok ==> counted == rows && column is None,
{
}

/// What an error says.
pub proof fn errors_are_told(error: &ConcatError, text: String)
    requires
        call_ensures(ConcatError::message, (error,), text),
    ensures
        match error {
            ConcatError::Compute(words) => text@ == "Compute error: "@ + words@,
            ConcatError::InvalidArgument(words) => text@ == "Invalid argument error: "@ + words@,
            ConcatError::DictionaryKeyOverflow => text@
                == "Dictionary key bigger than the key type"@,
            ConcatError::DictionaryValueOverflow => text@
                == "Dictionary values too large for one array"@,
            ConcatError::Arrow(_) => true,
        },
{
}

} // verus!

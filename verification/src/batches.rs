//! Concatenation of record batches.
use arrow_schema::{DataType, Schema};
use std::sync::Arc;
use vstd::prelude::*;

use crate::concat::{concat, in_limits, laid_out, mixed, refused, result_of, traced, within_limits};
use crate::error::ConcatError;
use crate::joins::{lemma_take_step, one_type};
use crate::model::{
    concatenates, index_max, joined_nulls, run_end_kind, total, ArrayModel, Primitive, Shape,
};
use crate::outside::{contents, field_ids, integer_shape, models, type_model, AnyArray};
use crate::records::{
    batch_contents, child_slots, emptiable, makeable, schema_model, schema_types, schema_width,
    unsuited, valid_batch, Batch, BatchModel, SchemaModel,
};
use crate::shapes::{field_types, shape_of};

verus! {

/// The schema behind a reference.
pub open spec fn schema_of(schema: &Arc<Schema>) -> SchemaModel {
    schema_model(**schema)
}

/// What each of the batches stores.
pub open spec fn batch_models(batches: Seq<Batch>) -> Seq<BatchModel> {
    Seq::new(batches.len(), |k: int| batch_contents(batches[k]))
}

/// The number of rows of the batches together.
pub open spec fn rows_total(bs: Seq<BatchModel>) -> nat
    decreases bs.len(),
{
    if bs.len() == 0 {
        0
    } else {
        rows_total(bs.drop_last()) + bs.last().len
    }
}

/// Column `i` of each batch.
pub open spec fn column_models(bs: Seq<BatchModel>, i: int) -> Seq<ArrayModel> {
    Seq::new(bs.len(), |k: int| bs[k].columns[i])
}

/// Whether batches can be concatenated under a schema: where the schema has no field, their rows can
/// be counted; where there is no batch, an empty one can be made; otherwise each batch has a column
/// for each field, and the concatenated columns can be numbered.
pub open spec fn batches_in_limits(schema: SchemaModel, bs: Seq<BatchModel>) -> bool {
    if schema.fields.len() == 0 {
        rows_total(bs) <= usize::MAX
    } else if bs.len() == 0 {
        forall|i: int|
            0 <= i < schema.fields.len() ==> emptiable((#[trigger] schema.fields[i]).data_type)
    } else {
        &&& forall|k: int|
            0 <= k < bs.len() ==> (#[trigger] bs[k]).columns.len() >= schema.fields.len()
        &&& forall|i: int|
            0 <= i < schema.fields.len() ==> in_limits(#[trigger] column_models(bs, i))
    }
}

/// Whether the concatenated columns do not suit the schema: a type differs, or a field that takes
/// no null has one.
pub open spec fn schema_refuses(schema: SchemaModel, bs: Seq<BatchModel>) -> bool {
    exists|i: int|
        0 <= i < schema.fields.len() && {
            ||| (#[trigger] schema.fields[i]).data_type != bs[0].columns[i].data_type
            ||| !schema.fields[i].nullable && joined_nulls(column_models(bs, i)) is Some
        }
}

/// Whether none of the first `n` columns has to fail.
pub open spec fn columns_before(bs: Seq<BatchModel>, n: int) -> bool {
    forall|k: int|
        0 <= k < n ==> !mixed(#[trigger] column_models(bs, k)) && !refused(
            column_models(bs, k)[0].data_type,
            column_models(bs, k),
        )
}

/// Whether concatenating column `i` fails with this error, and no column before it has to fail.
pub open spec fn first_failure(bs: Seq<BatchModel>, i: int, error: ConcatError) -> bool {
    &&& result_of(column_models(bs, i), Err(error))
    &&& columns_before(bs, i)
}

/// What concatenating batches under a schema gives.
///
/// The schemas of the batches do not matter. Under a schema without fields the rows are counted. No
/// batch at all gives an empty batch. Otherwise each column is concatenated, and the columns have to
/// suit the schema.
pub open spec fn batches_result(
    schema: SchemaModel,
    bs: Seq<BatchModel>,
    result: Result<Batch, ConcatError>,
) -> bool {
    let width = schema.fields.len();
    if width == 0 {
        &&& result matches Ok(b)
        &&& batch_contents(b).schema == schema
        &&& batch_contents(b).columns.len() == 0
        &&& batch_contents(b).len == rows_total(bs)
    } else if bs.len() == 0 {
        &&& result matches Ok(b)
        &&& batch_contents(b).schema == schema
        &&& batch_contents(b).columns.len() == width
        &&& batch_contents(b).len == 0
        &&& forall|i: int|
            0 <= i < width ==> {
                &&& (#[trigger] batch_contents(b).columns[i]).data_type
                    == schema.fields[i].data_type
                &&& batch_contents(b).columns[i].len == 0
            }
    } else {
        match result {
            Ok(b) => {
                &&& batch_contents(b).schema == schema
                &&& batch_contents(b).len == rows_total(bs)
                &&& batch_contents(b).columns.len() == width
                &&& forall|i: int|
                    0 <= i < width ==> {
                        &&& concatenates(
                            column_models(bs, i),
                            #[trigger] batch_contents(b).columns[i],
                        )
                        &&& laid_out(
                            column_models(bs, i)[0].data_type,
                            column_models(bs, i),
                            batch_contents(b).columns[i],
                        )
                    }
                &&& columns_before(bs, width as int)
                &&& !schema_refuses(schema, bs)
            },
            Err(error) => {
                ||| exists|i: int| 0 <= i < width && #[trigger] first_failure(bs, i, error)
                ||| {
                    &&& error is Arrow
                    &&& schema_refuses(schema, bs)
                    &&& columns_before(bs, width as int)
                }
            },
        }
    }
}

/// Whether an array is a column of a result, made of column `i` of the batches with dictionaries treated as
/// the test of shared buffers told.
pub open(crate) spec fn column_traced(
    bs: Seq<BatchModel>,
    i: int,
    column: ArrayModel,
    array: AnyArray,
) -> bool {
    &&& contents(array) == column
    &&& traced(column_models(bs, i)[0].data_type, column_models(bs, i), Ok(array))
}

/// Whether a column of a result was made so.
pub open(crate) spec fn some_traced(bs: Seq<BatchModel>, i: int, column: ArrayModel) -> bool {
    exists|array: AnyArray| #[trigger] column_traced(bs, i, column, array)
}

/// Whether the error of column `i` comes of dictionaries treated as the test of shared buffers told, if it
/// comes of any.
pub open(crate) spec fn failure_traced(bs: Seq<BatchModel>, i: int, error: ConcatError) -> bool {
    traced(column_models(bs, i)[0].data_type, column_models(bs, i), Err(error))
}

/// Whether dictionaries in the columns of batches were treated as the test of shared buffers told.
pub open(crate) spec fn columns_traced(
    schema: SchemaModel,
    bs: Seq<BatchModel>,
    result: Result<Batch, ConcatError>,
) -> bool {
    schema.fields.len() > 0 && bs.len() > 0 ==> match result {
        Ok(b) => forall|i: int|
            0 <= i < schema.fields.len() ==> some_traced(
                bs,
                i,
                #[trigger] batch_contents(b).columns[i],
            ),
        Err(error) => {
            ||| error is Arrow
            ||| error is InvalidArgument
            ||| exists|i: int|
                0 <= i < schema.fields.len() && #[trigger] failure_traced(bs, i, error)
        },
    }
}

/// The rows of the first batches are no more than those of all.
proof fn lemma_rows_prefix(bs: Seq<BatchModel>, i: int)
    requires
        0 <= i <= bs.len(),
    ensures
        rows_total(bs.take(i)) <= rows_total(bs),
    decreases bs.len() - i,
{
    if i < bs.len() {
        lemma_take_step(bs, i);
        lemma_rows_prefix(bs, i + 1);
    } else {
        assert(bs.take(i) =~= bs);
    }
}

/// Every column has as many slots as the batches have rows.
proof fn lemma_column_total(bs: Seq<BatchModel>, i: int)
    requires
        forall|k: int|
            0 <= k < bs.len() ==> valid_batch(#[trigger] bs[k]) && 0 <= i < bs[k].columns.len(),
    ensures
        total(column_models(bs, i)) == rows_total(bs),
    decreases bs.len(),
{
    if bs.len() > 0 {
        let front = bs.drop_last();
        assert(column_models(bs, i).drop_last() =~= column_models(front, i));
        let last = bs[bs.len() - 1];
        assert(valid_batch(last));
        assert(last.columns[i].len == last.len);
        assert forall|k: int| 0 <= k < front.len() implies valid_batch(#[trigger] front[k]) && 0
            <= i < front[k].columns.len() by {
            assert(front[k] == bs[k]);
        }
        lemma_column_total(front, i);
    }
}

/// The number of rows of the batches together, if it can be counted.
fn checked_rows(batches: &[Batch]) -> (r: Option<usize>)
    ensures
        r matches Some(n) ==> n == rows_total(batch_models(batches@)),
        r is None ==> rows_total(batch_models(batches@)) > usize::MAX,
{
    let ghost bs = batch_models(batches@);
    let mut rows: usize = 0;
    let mut k: usize = 0;
    while k < batches.len()
        invariant
            0 <= k <= batches@.len(),
            bs == batch_models(batches@),
            rows == rows_total(bs.take(k as int)),
        decreases batches@.len() - k,
    {
        let n: usize = batches[k].rows();
        proof {
            lemma_take_step(bs, k as int);
            lemma_rows_prefix(bs, k + 1);
        }
        match rows.checked_add(n) {
            Some(more) => {
                rows = more;
            },
            None => {
                return None;
            },
        }
        k += 1;
    }
    assert(bs.take(k as int) =~= bs);
    Some(rows)
}

/// Column `i` of each batch.
fn columns_at(batches: &[Batch], i: usize) -> (r: Vec<AnyArray>)
    requires
        forall|k: int|
            0 <= k < batches@.len() ==> i < batch_contents(#[trigger] batches@[k]).columns.len(),
    ensures
        models(r@) == column_models(batch_models(batches@), i as int),
        forall|k: int| 0 <= k < batches@.len() ==> valid_batch(batch_contents(#[trigger] batches@[k])),
{
    let mut out: Vec<AnyArray> = Vec::with_capacity(batches.len());
    let mut k: usize = 0;
    while k < batches.len()
        invariant
            0 <= k <= batches@.len(),
            out@.len() == k,
            forall|q: int|
                0 <= q < batches@.len() ==> i < batch_contents(
                    #[trigger] batches@[q],
                ).columns.len(),
            forall|q: int|
                0 <= q < k ==> contents(#[trigger] out@[q]) == batch_contents(
                    batches@[q],
                ).columns[i as int],
            forall|q: int| 0 <= q < k ==> valid_batch(batch_contents(#[trigger] batches@[q])),
        decreases batches@.len() - k,
    {
        let rows: usize = batches[k].rows();
        out.push(batches[k].column_at(i));
        k += 1;
    }
    assert(models(out@) =~= column_models(batch_models(batches@), i as int));
    out
}

/// Concatenates batches into one batch of the given schema. The schemas of the batches are ignored.
///
/// Fails if the types of a column differ between the batches.
pub fn concat_batches(schema: &Arc<Schema>, input_batches: &[Batch]) -> (r: Result<
    Batch,
    ConcatError,
>)
    requires
        batches_in_limits(schema_of(schema), batch_models(input_batches@)),
    ensures
        batches_result(schema_of(schema), batch_models(input_batches@), r),
        columns_traced(schema_of(schema), batch_models(input_batches@), r),
{
    let ghost s = schema_of(schema);
    let ghost bs = batch_models(input_batches@);
    let field_num: usize = schema_width(schema);
    if field_num == 0 {
        let num_rows: usize = match checked_rows(input_batches) {
            Some(n) => n,
            None => 0,
        };
        return match Batch::make_without_columns(schema.clone(), num_rows) {
            Ok(batch) => Ok(batch),
            Err(error) => Err(ConcatError::Arrow(error)),
        };
    }
    if input_batches.len() == 0 {
        return Ok(Batch::new_empty(schema.clone()));
    }
    assert forall|k: int| 0 <= k < input_batches@.len() implies batch_contents(
        #[trigger] input_batches@[k],
    ).columns.len() >= field_num by {
        assert(bs[k] == batch_contents(input_batches@[k]));
    }
    let mut arrays: Vec<AnyArray> = Vec::with_capacity(field_num);
    let mut i: usize = 0;
    while i < field_num
        invariant
            0 <= i <= field_num,
            s == schema_of(schema),
            field_num == s.fields.len(),
            field_num > 0,
            bs == batch_models(input_batches@),
            bs.len() > 0,
            batches_in_limits(s, bs),
            forall|k: int|
                0 <= k < input_batches@.len() ==> batch_contents(
                    #[trigger] input_batches@[k],
                ).columns.len() >= field_num,
            i > 0 ==> forall|k: int| 0 <= k < bs.len() ==> valid_batch(#[trigger] bs[k]),
            arrays@.len() == i,
            forall|q: int|
                0 <= q < i ==> {
                    &&& concatenates(column_models(bs, q), contents(#[trigger] arrays@[q]))
                    &&& laid_out(
                        column_models(bs, q)[0].data_type,
                        column_models(bs, q),
                        contents(arrays@[q]),
                    )
                    &&& traced(
                        column_models(bs, q)[0].data_type,
                        column_models(bs, q),
                        Ok(arrays@[q]),
                    )
                },
            columns_before(bs, i as int),
        decreases field_num - i,
    {
        let columns = columns_at(input_batches, i);
        proof {
            assert(in_limits(column_models(bs, i as int)));
            assert forall|k: int| 0 <= k < bs.len() implies valid_batch(#[trigger] bs[k]) by {
                assert(bs[k] == batch_contents(input_batches@[k]));
            }
        }
        assert(columns@.len() == bs.len()) by {
            assert(models(columns@).len() == columns@.len());
        }
        assert(contents(columns@[0]) == column_models(bs, i as int)[0]) by {
            assert(models(columns@)[0] == contents(columns@[0]));
        }
        match concat(columns.as_slice()) {
            Ok(array) => {
                arrays.push(array);
            },
            Err(error) => {
                proof {
                    assert(result_of(column_models(bs, i as int), Err(error)));
                    assert(first_failure(bs, i as int, error));
                    if one_type(column_models(bs, i as int)) {
                        assert(failure_traced(bs, i as int, error));
                    }
                }
                return Err(error);
            },
        }
        i += 1;
    }
    let ghost made = models(arrays@);
    proof {
        assert forall|q: int| 0 <= q < field_num implies {
            &&& (#[trigger] made[q]).len == rows_total(bs)
            &&& made[q].data_type == bs[0].columns[q].data_type
            &&& made[q].nulls == joined_nulls(column_models(bs, q))
        } by {
            assert(concatenates(column_models(bs, q), contents(arrays@[q])));
            assert forall|k: int| 0 <= k < bs.len() implies valid_batch(#[trigger] bs[k]) && 0
                <= q < bs[k].columns.len() by {}
            lemma_column_total(bs, q);
            assert(column_models(bs, q)[0] == bs[0].columns[q]);
        }
        assert(made[0] == contents(arrays@[0]));
        assert forall|q: int| 0 <= q < arrays@.len() implies contents(
            #[trigger] arrays@[q],
        ).len == contents(arrays@[0]).len by {
            assert(made[q] == contents(arrays@[q]));
        }
        lemma_unsuited(s, bs, made);
    }
    match Batch::make(schema.clone(), arrays) {
        Ok(batch) => {
            proof {
                assert forall|q: int| 0 <= q < field_num implies {
                    &&& concatenates(
                        column_models(bs, q),
                        #[trigger] batch_contents(batch).columns[q],
                    )
                    &&& laid_out(
                        column_models(bs, q)[0].data_type,
                        column_models(bs, q),
                        batch_contents(batch).columns[q],
                    )
                } by {
                    assert(made[q] == contents(arrays@[q]));
                    assert(concatenates(column_models(bs, q), contents(arrays@[q])));
                }
                assert forall|q: int| 0 <= q < field_num implies some_traced(
                    bs,
                    q,
                    #[trigger] batch_contents(batch).columns[q],
                ) by {
                    assert(made[q] == contents(arrays@[q]));
                    assert(concatenates(column_models(bs, q), contents(arrays@[q])));
                    assert(column_traced(bs, q, batch_contents(batch).columns[q], arrays@[q]));
                }
            }
            Ok(batch)
        },
        Err(error) => Err(ConcatError::Arrow(error)),
    }
}

/// The concatenated columns suit the fields if and only if the columns of the batches do.
proof fn lemma_unsuited(s: SchemaModel, bs: Seq<BatchModel>, made: Seq<ArrayModel>)
    requires
        made.len() == s.fields.len(),
        forall|q: int|
            0 <= q < made.len() ==> {
                &&& (#[trigger] made[q]).data_type == bs[0].columns[q].data_type
                &&& made[q].nulls == joined_nulls(column_models(bs, q))
            },
    ensures
        unsuited(s.fields, made) == schema_refuses(s, bs),
{
    if unsuited(s.fields, made) {
        let i = choose|i: int|
            0 <= i < s.fields.len() && {
                ||| (#[trigger] made[i]).data_type != s.fields[i].data_type
                ||| !s.fields[i].nullable && made[i].nulls is Some
            };
        assert(s.fields[i].data_type == s.fields[i].data_type);
        assert(schema_refuses(s, bs));
    }
    if schema_refuses(s, bs) {
        let i = choose|i: int|
            0 <= i < s.fields.len() && {
                ||| (#[trigger] s.fields[i]).data_type != bs[0].columns[i].data_type
                ||| !s.fields[i].nullable && joined_nulls(column_models(bs, i)) is Some
            };
        assert(made[i].data_type == bs[0].columns[i].data_type);
        assert(unsuited(s.fields, made));
    }
}

/// Whether an array of this type with `n` null slots can be made.
fn can_be_made(data_type: &DataType, n: usize) -> (r: bool)
    ensures
        r == makeable(type_model(*data_type), n as int),
    decreases type_model(*data_type),
{
    let ghost t = type_model(*data_type);
    let limit: u128 = isize::MAX as u128;
    if n as u128 * 64 + 128 > limit {
        return false;
    }
    let types = field_types(data_type);
    let shape = shape_of(data_type);
    let suited: bool = match shape {
        Shape::ListView => false,
        Shape::Unused => false,
        Shape::FixedBinary(width) => width >= 0 && match n.checked_mul(width as usize) {
            Some(bytes) => bytes as u128 + 128 <= limit,
            None => false,
        },
        Shape::FixedList(size) => size >= 0 && types.len() == 1,
        Shape::MapEntries => types.len() == 1 && match shape_of(&types[0]) {
            Shape::Struct => field_types(&types[0]).len() == 2,
            _ => false,
        },
        Shape::Dictionary => types.len() == 2 && integer_shape(&types[0]).is_some(),
        Shape::Runs => types.len() == 2 && match shape_of(&types[0]) {
            Shape::Primitive(Primitive::Int16) => n <= i16::MAX as usize,
            Shape::Primitive(Primitive::Int32) => n <= i32::MAX as usize,
            Shape::Primitive(Primitive::Int64) => n as i128 <= i64::MAX as i128,
            _ => false,
        },
        Shape::Union { dense } => types.len() > 0 && (!dense || n <= i32::MAX as usize)
            && ids_count(data_type),
        _ => true,
    };
    if !suited {
        return false;
    }
    let mut j: usize = 0;
    while j < types.len()
        invariant
            0 <= j <= types@.len(),
            t == type_model(*data_type),
            shape == t.shape,
            suited,
            suited == match t.shape {
                Shape::ListView => false,
                Shape::Unused => false,
                Shape::FixedBinary(width) => width >= 0 && n * width + 128 <= isize::MAX,
                Shape::FixedList(size) => size >= 0 && t.fields.len() == 1,
                Shape::MapEntries => t.fields.len() == 1 && t.fields[0].data_type.shape is Struct
                    && t.fields[0].data_type.fields.len() == 2,
                Shape::Dictionary => t.fields.len() == 2 && index_max(t) > 0,
                Shape::Runs => t.fields.len() == 2 && run_end_kind(t.fields[0].data_type.shape)
                    && n <= index_max(t),
                Shape::Union { dense } => {
                    &&& t.fields.len() > 0
                    &&& dense ==> n <= i32::MAX
                    &&& forall|j: int| 0 <= j < t.fields.len() ==> 0 <= (#[trigger] t.fields[j]).id
                },
                _ => true,
            },
            n * 64 + 128 <= isize::MAX,
            types@.len() == t.fields.len(),
            forall|q: int|
                0 <= q < types@.len() ==> type_model(#[trigger] types@[q])
                    == t.fields[q].data_type,
            forall|q: int|
                0 <= q < j ==> makeable(
                    (#[trigger] t.fields[q]).data_type,
                    child_slots(t, n as int, q),
                ),
        decreases types@.len() - j,
    {
        let ghost field = t.fields[j as int];
        assert(type_model(types@[j as int]) == t.fields[j as int].data_type);
        let slots: usize = match shape {
            Shape::List { .. } => 0,
            Shape::MapEntries => 0,
            Shape::Dictionary => 0,
            Shape::FixedList(size) => match n.checked_mul(size as usize) {
                Some(items) => items,
                None => {
                    assert(!makeable(field.data_type, child_slots(t, n as int, j as int)));
                    return false;
                },
            },
            Shape::Runs => 1,
            Shape::Union { dense } => if dense && j > 0 {
                0
            } else {
                n
            },
            _ => n,
        };
        assert(slots == child_slots(t, n as int, j as int));
        if !can_be_made(&types[j], slots) {
            return false;
        }
        j += 1;
    }
    true
}

/// Whether no field of a union has a negative type id.
fn ids_count(data_type: &DataType) -> (r: bool)
    requires
        type_model(*data_type).shape is Union,
    ensures
        r == forall|j: int|
            0 <= j < type_model(*data_type).fields.len() ==> 0 <= (
            #[trigger] type_model(*data_type).fields[j]).id,
{
    let ghost fields = type_model(*data_type).fields;
    let ids = field_ids(data_type);
    let mut j: usize = 0;
    while j < ids.len()
        invariant
            0 <= j <= ids@.len(),
            fields == type_model(*data_type).fields,
            ids@.len() == fields.len(),
            forall|k: int| 0 <= k < ids@.len() ==> #[trigger] ids@[k] == fields[k].id,
            forall|k: int| 0 <= k < j ==> 0 <= (#[trigger] fields[k]).id,
        decreases ids@.len() - j,
    {
        assert(ids@[j as int] == fields[j as int].id);
        if ids[j] < 0 {
            return false;
        }
        j += 1;
    }
    true
}

/// Concatenates batches into one batch of the given schema, if the result can be made: gives `None` if
/// the rows cannot be counted, a batch lacks a column, a column of the result cannot be numbered, or
/// no empty batch of the schema can be made.
pub fn checked_concat_batches(schema: &Arc<Schema>, input_batches: &[Batch]) -> (r: Option<
    Result<Batch, ConcatError>,
>)
    ensures
        r is None <==> !batches_in_limits(schema_of(schema), batch_models(input_batches@)),
        r matches Some(result) ==> batches_result(
            schema_of(schema),
            batch_models(input_batches@),
            result,
        ),
        r matches Some(result) ==> columns_traced(
            schema_of(schema),
            batch_models(input_batches@),
            result,
        ),
{
    let ghost s = schema_of(schema);
    let ghost bs = batch_models(input_batches@);
    let width: usize = schema_width(schema);
    if width == 0 {
        if checked_rows(input_batches).is_none() {
            return None;
        }
    } else if input_batches.len() == 0 {
        let types = schema_types(schema);
        let mut i: usize = 0;
        while i < types.len()
            invariant
                0 <= i <= types@.len(),
                s == schema_of(schema),
                s.fields.len() > 0,
                bs.len() == 0,
                bs == batch_models(input_batches@),
                types@.len() == s.fields.len(),
                forall|q: int|
                    0 <= q < types@.len() ==> type_model(#[trigger] types@[q])
                        == s.fields[q].data_type,
                forall|q: int| 0 <= q < i ==> emptiable((#[trigger] s.fields[q]).data_type),
            decreases types@.len() - i,
        {
            assert(type_model(types@[i as int]) == s.fields[i as int].data_type);
            if !can_be_made(&types[i], 0) {
                return None;
            }
            i += 1;
        }
    } else {
        let mut k: usize = 0;
        while k < input_batches.len()
            invariant
                0 <= k <= input_batches@.len(),
                s == schema_of(schema),
                bs == batch_models(input_batches@),
                width == s.fields.len(),
                width > 0,
                bs.len() > 0,
                forall|q: int| 0 <= q < k ==> (#[trigger] bs[q]).columns.len() >= width,
            decreases input_batches@.len() - k,
        {
            assert(bs[k as int] == batch_contents(input_batches@[k as int]));
            if input_batches[k].width() < width {
                return None;
            }
            k += 1;
        }
        assert forall|q: int| 0 <= q < input_batches@.len() implies batch_contents(
            #[trigger] input_batches@[q],
        ).columns.len() >= width by {
            assert(bs[q] == batch_contents(input_batches@[q]));
        }
        let mut i: usize = 0;
        while i < width
            invariant
                0 <= i <= width,
                s == schema_of(schema),
                bs == batch_models(input_batches@),
                width == s.fields.len(),
                bs.len() > 0,
                forall|q: int|
                    0 <= q < input_batches@.len() ==> batch_contents(
                        #[trigger] input_batches@[q],
                    ).columns.len() >= width,
                forall|q: int| 0 <= q < i ==> in_limits(#[trigger] column_models(bs, q)),
            decreases width - i,
        {
            let columns = columns_at(input_batches, i);
            proof {
                assert(models(columns@).len() == bs.len());
                assert(contents(columns@[0]) == models(columns@)[0]);
            }
            if !within_limits(columns.as_slice()) {
                assert(!in_limits(column_models(bs, i as int)));
                return None;
            }
            i += 1;
        }
    }
    Some(concat_batches(schema, input_batches))
}

} // verus!

//! Record batches of the Arrow crates, and what is taken for granted of them.
use arrow_array::{RecordBatch, RecordBatchOptions};
use arrow_schema::{ArrowError, DataType, Schema};
use std::sync::Arc;
use vstd::prelude::*;

use crate::limits::ample;
use crate::model::{index_max, run_end_kind, ArrayModel, FieldModel, Shape, TypeModel};
use crate::outside::{contents, models, type_model, AnyArray};

verus! {

/// `arrow_schema::Schema`.
#[verifier::external_type_specification]
#[verifier::external_body]
pub struct ExSchema(Schema);

/// Columns of equal length under one schema: `arrow_array::RecordBatch`. Only `RecordBatch::try_new`,
/// `RecordBatch::try_new_with_options` and `RecordBatch::new_empty` make one, here.
#[verifier::external_body]
pub struct Batch {
    pub(crate) inner: RecordBatch,
}

/// A schema: its fields, and its metadata.
#[verifier::ext_equal]
pub struct SchemaModel {
    pub fields: Seq<FieldModel>,
    pub metadata: Seq<char>,
}

/// What a batch stores.
#[verifier::ext_equal]
pub struct BatchModel {
    pub schema: SchemaModel,
    pub columns: Seq<ArrayModel>,
    /// The number of rows.
    pub len: nat,
}

/// What a batch stores.
pub uninterp spec fn batch_contents(batch: Batch) -> BatchModel;

/// The schema that a value of `Schema` stands for.
pub uninterp spec fn schema_model(schema: Schema) -> SchemaModel;

/// Whether there is a column for each field, as long as the batch, that suits it.
pub open spec fn valid_batch(b: BatchModel) -> bool {
    &&& b.columns.len() == b.schema.fields.len()
    &&& forall|i: int| 0 <= i < b.columns.len() ==> (#[trigger] b.columns[i]).len == b.len
    &&& !unsuited(b.schema.fields, b.columns)
}

/// Whether a batch is valid and has `len` rows.
pub open spec fn batch_with_len(b: BatchModel, len: usize) -> bool {
    &&& valid_batch(b)
    &&& b.len == len
}

/// Whether columns do not suit a schema: a type differs, or a field that takes no null has one.
pub open spec fn unsuited(fields: Seq<FieldModel>, columns: Seq<ArrayModel>) -> bool {
    exists|i: int|
        0 <= i < fields.len() && {
            ||| (#[trigger] columns[i]).data_type != fields[i].data_type
            ||| !fields[i].nullable && columns[i].nulls is Some
        }
}

/// The number of slots that an array of type `t` with `n` null slots has in its `j`-th child.
pub open spec fn child_slots(t: TypeModel, n: int, j: int) -> int {
    match t.shape {
        Shape::List { .. } => 0,
        Shape::MapEntries => 0,
        Shape::Dictionary => 0,
        Shape::FixedList(size) => n * size,
        Shape::Runs => 1,
        Shape::Union { dense: true } => if j == 0 {
            n
        } else {
            0
        },
        _ => n,
    }
}

/// Whether an array of type `t` with `n` null slots can be made: an array without slots may hold others
/// that have some.
pub open spec fn makeable(t: TypeModel, n: int) -> bool
    decreases t,
{
    &&& ample(n)
    &&& match t.shape {
        Shape::ListView => false,
        Shape::Unused => false,
        Shape::FixedBinary(width) => width >= 0 && n * width + 128 <= isize::MAX,
        Shape::FixedList(size) => size >= 0 && t.fields.len() == 1,
        Shape::MapEntries => t.fields.len() == 1 && t.fields[0].data_type.shape is Struct
            && t.fields[0].data_type.fields.len() == 2,
        Shape::Dictionary => t.fields.len() == 2 && index_max(t) > 0,
        Shape::Runs => t.fields.len() == 2 && run_end_kind(t.fields[0].data_type.shape) && n
            <= index_max(t),
        Shape::Union { dense } => {
            &&& t.fields.len() > 0
            &&& dense ==> n <= i32::MAX
            &&& forall|j: int| 0 <= j < t.fields.len() ==> 0 <= (#[trigger] t.fields[j]).id
        },
        _ => true,
    }
    &&& forall|j: int|
        0 <= j < t.fields.len() ==> makeable(
            (#[trigger] t.fields[j]).data_type,
            child_slots(t, n, j),
        )
}

/// Whether an array of type `t` without slots can be made.
pub open spec fn emptiable(t: TypeModel) -> bool {
    makeable(t, 0)
}

/// `Schema::fields` has a field for each column.
#[verifier::external_body]
pub(crate) fn schema_width(schema: &Schema) -> (r: usize)
    ensures
        r == schema_model(*schema).fields.len(),
{
    schema.fields().len()
}

/// `Field::data_type` gives the type of each field of a schema.
#[verifier::external_body]
pub(crate) fn schema_types(schema: &Schema) -> (r: Vec<DataType>)
    ensures
        r@.len() == schema_model(*schema).fields.len() && forall|i: int|
            0 <= i < r@.len() ==> type_model(#[trigger] r@[i]) == schema_model(
                *schema,
            ).fields[i].data_type,
{
    schema.fields().iter().map(|field| field.data_type().clone()).collect()
}

impl Batch {
    /// `RecordBatch::try_new` makes a batch of columns. It fails if and only if there is no column or
    /// not one for each field, if lengths differ, or if a column does not suit its field.
    #[verifier::external_body]
    pub(crate) fn make(schema: Arc<Schema>, columns: Vec<AnyArray>) -> (r: Result<Batch, ArrowError>)
        ensures
            r is Err <==> (columns@.len() != schema_model(*schema).fields.len() || columns@.len()
                == 0 || (exists|i: int|
                0 <= i < columns@.len() && contents(#[trigger] columns@[i]).len != contents(
                    columns@[0],
                ).len) || unsuited(schema_model(*schema).fields, models(columns@))),
            r matches Ok(b) ==> {
                &&& batch_contents(b).schema == schema_model(*schema)
                &&& batch_contents(b).columns == models(columns@)
                &&& batch_contents(b).len == contents(columns@[0]).len
            },
    {
        let columns = columns.into_iter().map(|column| column.inner).collect();
        Ok(Batch { inner: RecordBatch::try_new(schema, columns)? })
    }

    /// `RecordBatch::try_new_with_options` makes a batch without columns of a given number of rows. It
    /// fails if and only if the schema has fields.
    #[verifier::external_body]
    pub(crate) fn make_without_columns(schema: Arc<Schema>, rows: usize) -> (r: Result<Batch, ArrowError>)
        ensures
            r is Err <==> schema_model(*schema).fields.len() != 0,
            r matches Ok(b) ==> {
                &&& batch_contents(b).schema == schema_model(*schema)
                &&& batch_contents(b).columns == Seq::<ArrayModel>::empty()
                &&& batch_contents(b).len == rows
            },
    {
        let options = RecordBatchOptions::new().with_row_count(Some(rows));
        Ok(Batch { inner: RecordBatch::try_new_with_options(schema, Vec::new(), &options)? })
    }

    /// `RecordBatch::new_empty` makes a batch without rows, of empty arrays. Run-end encoded ones hold one
    /// null value, which may hold many more.
    #[verifier::external_body]
    pub(crate) fn new_empty(schema: Arc<Schema>) -> (r: Batch)
        requires
            forall|i: int|
                0 <= i < schema_model(*schema).fields.len() ==> emptiable(
                    (#[trigger] schema_model(*schema).fields[i]).data_type,
                ),
        ensures
            batch_contents(r).schema == schema_model(*schema),
            valid_batch(batch_contents(r)),
            batch_contents(r).len == 0,
            forall|i: int|
                0 <= i < batch_contents(r).columns.len() ==> (
                #[trigger] batch_contents(r).columns[i]).data_type == schema_model(
                    *schema,
                ).fields[i].data_type,
    {
        Batch { inner: RecordBatch::new_empty(schema) }
    }

    /// `RecordBatch::num_rows` gives the number of rows, of a batch that is valid, as those are that
    /// `RecordBatch::try_new`, `RecordBatch::try_new_with_options` and `RecordBatch::new_empty` make.
    #[verifier::external_body]
    pub(crate) fn rows(&self) -> (r: usize)
        ensures
            batch_with_len(batch_contents(*self), r),
    {
        self.inner.num_rows()
    }

    /// `RecordBatch::num_columns` gives the number of columns.
    #[verifier::external_body]
    pub(crate) fn width(&self) -> (r: usize)
        ensures
            r == batch_contents(*self).columns.len(),
    {
        self.inner.num_columns()
    }

    /// `RecordBatch::column` gives a column.
    #[verifier::external_body]
    pub(crate) fn column_at(&self, index: usize) -> (r: AnyArray)
        requires
            index < batch_contents(*self).columns.len(),
        ensures
            contents(r) == batch_contents(*self).columns[index as int],
    {
        AnyArray { inner: self.inner.column(index).clone() }
    }

    /// `RecordBatch::schema` gives the schema.
    #[verifier::external_body]
    pub(crate) fn schema_ref(&self) -> (r: Arc<Schema>)
        ensures
            schema_model(*r) == batch_contents(*self).schema,
    {
        self.inner.schema()
    }
}

} // verus!

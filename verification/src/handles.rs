//! Arrays and batches as callers hand them in and take them back.
use arrow_array::Array;
use arrow_data::ArrayData;
use arrow_schema::{ArrowError, Schema};
use std::sync::Arc;
use vstd::prelude::*;

use crate::model::{sound, valid, ArrayModel};
use crate::outside::{contents, data_contents, models, AnyArray};
use crate::records::{batch_contents, schema_model, unsuited, valid_batch, Batch};
use crate::validity::agrees;

verus! {

impl AnyArray {
    /// Takes over an array of any type.
    pub fn new<A: Array + 'static>(array: A) -> (r: AnyArray)
        ensures
            sound(contents(r)),
    {
        AnyArray::wrap(array)
    }

    /// Whether the array agrees with itself: whether its run ends suit its values and its length, and
    /// its type ids and offsets point to slots of its children. Arrow's constructors see to the rest.
    pub fn is_valid(&self) -> (r: bool)
        ensures
            r == valid(contents(*self)),
    {
        agrees(self)
    }

    /// Gives the array back as array data.
    pub fn to_data(&self) -> (r: ArrayData)
        ensures
            data_contents(r) == contents(*self),
    {
        self.data()
    }
}

impl Batch {
    /// Makes a batch of columns. Fails if there is no column or not one for each field, if lengths
    /// differ, or if a column does not suit its field.
    pub fn try_new(schema: Arc<Schema>, columns: Vec<AnyArray>) -> (r: Result<Batch, ArrowError>)
        ensures
            r is Err <==> (columns@.len() != schema_model(*schema).fields.len() || columns@.len()
                == 0 || (exists|i: int|
                0 <= i < columns@.len() && contents(#[trigger] columns@[i]).len != contents(
                    columns@[0],
                ).len) || unsuited(schema_model(*schema).fields, models(columns@))),
            r matches Ok(b) ==> {
                &&& batch_contents(b).schema == schema_model(*schema)
                &&& batch_contents(b).columns == models(columns@)
                &&& batch_contents(b).len == contents(columns@[0]).len
            },
    {
        Batch::make(schema, columns)
    }

    /// Makes a batch of rows without columns. Fails if the schema has fields.
    pub fn without_columns(schema: Arc<Schema>, rows: usize) -> (r: Result<Batch, ArrowError>)
        ensures
            r is Err <==> schema_model(*schema).fields.len() != 0,
            r matches Ok(b) ==> {
                &&& batch_contents(b).schema == schema_model(*schema)
                &&& batch_contents(b).columns == Seq::<ArrayModel>::empty()
                &&& batch_contents(b).len == rows
            },
    {
        Batch::make_without_columns(schema, rows)
    }

    /// The number of rows.
    pub fn num_rows(&self) -> (r: usize)
        ensures
            r == batch_contents(*self).len,
            valid_batch(batch_contents(*self)),
    {
        self.rows()
    }

    /// The number of columns.
    pub fn num_columns(&self) -> (r: usize)
        ensures
            r == batch_contents(*self).columns.len(),
    {
        self.width()
    }

    /// A column, if the batch has it.
    pub fn column(&self, index: usize) -> (r: Option<AnyArray>)
        ensures
            r is Some <==> index < batch_contents(*self).columns.len(),
            r matches Some(array) ==> contents(array) == batch_contents(
                *self,
            ).columns[index as int],
    {
        if index < self.width() {
            Some(self.column_at(index))
        } else {
            None
        }
    }

    /// The schema.
    pub fn schema(&self) -> (r: Arc<Schema>)
        ensures
            schema_model(*r) == batch_contents(*self).schema,
    {
        self.schema_ref()
    }
}

} // verus!

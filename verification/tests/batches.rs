use std::sync::Arc;

use arrow_array::{Int32Array, StringArray};
use arrow_schema::{DataType, Field, Schema};

use arrow_concat::batches::concat_batches;
use arrow_concat::error::ConcatError;
use arrow_concat::outside::AnyArray;
use arrow_concat::records::Batch;

fn ok(result: Result<Batch, ConcatError>) -> Batch {
    match result {
        Ok(batch) => batch,
        Err(error) => panic!("{}", error.message()),
    }
}

fn batch_of(schema: Arc<Schema>, columns: Vec<AnyArray>) -> Batch {
    match Batch::try_new(schema, columns) {
        Ok(batch) => batch,
        Err(error) => panic!("{error}"),
    }
}

fn ints(values: Vec<i32>) -> AnyArray {
    AnyArray::new(Int32Array::from(values))
}

fn strings(values: Vec<&str>) -> AnyArray {
    AnyArray::new(StringArray::from(values))
}

#[test]
fn test_concat_batches_no_columns() {
    // Test concat using empty schema / batches without columns
    let schema = Arc::new(Schema::empty());

    let batch = || match Batch::without_columns(schema.clone(), 100) {
        Ok(batch) => batch,
        Err(error) => panic!("{error}"),
    };
    // put in 2 batches of 100 rows each
    let re = ok(concat_batches(&schema, &[batch(), batch()]));

    assert_eq!(re.num_rows(), 200);
}

#[test]
fn concat_record_batches() {
    let schema = Arc::new(Schema::new(vec![
        Field::new("a", DataType::Int32, false),
        Field::new("b", DataType::Utf8, false),
    ]));
    let batch1 = batch_of(schema.clone(), vec![ints(vec![1, 2]), strings(vec!["a", "b"])]);
    let batch2 = batch_of(schema.clone(), vec![ints(vec![3, 4]), strings(vec!["c", "d"])]);
    let batches = [batch1, batch2];
    let new_batch = ok(concat_batches(&schema, &batches));
    assert_eq!(new_batch.schema().as_ref(), schema.as_ref());
    assert_eq!(2, new_batch.num_columns());
    assert_eq!(4, new_batch.num_rows());
    let new_batch_owned = ok(concat_batches(&schema, batches.as_slice()));
    assert_eq!(new_batch_owned.schema().as_ref(), schema.as_ref());
    assert_eq!(2, new_batch_owned.num_columns());
    assert_eq!(4, new_batch_owned.num_rows());
}

#[test]
fn concat_empty_record_batch() {
    let schema = Arc::new(Schema::new(vec![
        Field::new("a", DataType::Int32, false),
        Field::new("b", DataType::Utf8, false),
    ]));
    let batch = ok(concat_batches(&schema, &[]));
    assert_eq!(batch.schema().as_ref(), schema.as_ref());
    assert_eq!(0, batch.num_rows());
}

#[test]
fn concat_record_batches_of_different_schemas_but_compatible_data() {
    let schema1 = Arc::new(Schema::new(vec![Field::new("a", DataType::Int32, false)]));
    // column names differ
    let schema2 = Arc::new(Schema::new(vec![Field::new("c", DataType::Int32, false)]));
    let batch1 = batch_of(schema1.clone(), vec![ints(vec![1, 2])]);
    let batch2 = batch_of(schema2, vec![ints(vec![3, 4])]);
    // concat_batches simply uses the schema provided
    let batch = ok(concat_batches(&schema1, &[batch1, batch2]));
    assert_eq!(batch.schema().as_ref(), schema1.as_ref());
    assert_eq!(4, batch.num_rows());
}

#[test]
fn concat_record_batches_of_different_schemas_incompatible_data() {
    let schema1 = Arc::new(Schema::new(vec![Field::new("a", DataType::Int32, false)]));
    // column names differ
    let schema2 = Arc::new(Schema::new(vec![Field::new("a", DataType::Utf8, false)]));
    let batch1 = batch_of(schema1.clone(), vec![ints(vec![1, 2])]);
    let batch2 = batch_of(schema2, vec![strings(vec!["foo", "bar"])]);

    match concat_batches(&schema1, &[batch1, batch2]) {
        Ok(_) => panic!("the batches were concatenated"),
        Err(error) => assert_eq!(error.message(), "Invalid argument error: It is not possible to concatenate arrays of different data types (Int32, Utf8)."),
    }
}

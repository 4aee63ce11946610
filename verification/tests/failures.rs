use std::sync::Arc;

use arrow_array::cast::AsArray;
use arrow_array::types::{Int16Type, Int32Type, Int8Type};
use arrow_array::{
    make_array, Array, ArrayRef, BooleanArray, DictionaryArray, FixedSizeListArray, Int16Array,
    Int32Array, Int8Array, ListArray, ListViewArray, NullArray, PrimitiveArray, RecordBatch,
    RunArray, StringArray, StructArray,
};
use arrow_buffer::{OffsetBuffer, ScalarBuffer};
use arrow_schema::{DataType, Field, Schema};

use arrow_concat::batches::{checked_concat_batches, concat_batches};
use arrow_concat::concat::checked_concat;
use arrow_concat::dictionary::should_merge_dictionary_values;
use arrow_concat::error::ConcatError;
use arrow_concat::mismatch::mismatch_message;
use arrow_concat::model::{Primitive, Shape};
use arrow_concat::outside::AnyArray;
use arrow_concat::records::Batch;

fn attempt(arrays: &[ArrayRef]) -> Option<Result<ArrayRef, ConcatError>> {
    let arrays: Vec<AnyArray> = arrays.iter().map(|array| AnyArray::new(array.clone())).collect();
    checked_concat(&arrays).map(|result| result.map(|array| make_array(array.to_data())))
}

fn failure(arrays: &[ArrayRef]) -> ConcatError {
    match attempt(arrays) {
        Some(Err(error)) => error,
        Some(Ok(_)) => panic!("the arrays were concatenated"),
        None => panic!("the arrays exceed a limit"),
    }
}

fn runs(ends: Vec<i16>) -> RunArray<Int16Type> {
    let values = Int32Array::from_iter_values(0..ends.len() as i32);
    RunArray::try_new(&Int16Array::from(ends), &values).unwrap()
}

fn list_view(rows: usize) -> ArrayRef {
    let field = Arc::new(Field::new("item", DataType::Int32, true));
    Arc::new(ListViewArray::new(
        field,
        ScalarBuffer::from(vec![0; rows]),
        ScalarBuffer::from(vec![1; rows]),
        Arc::new(Int32Array::from(vec![1])),
        None,
    ))
}

#[test]
fn nothing_to_concatenate() {
    let error = failure(&[]);
    assert!(matches!(error, ConcatError::Compute(_)));
    assert_eq!(
        error.message(),
        "Compute error: concat requires input of at least one array"
    );
}

#[test]
fn runs_without_any_row() {
    let full = runs(vec![2, 3]);
    let error = failure(&[Arc::new(full.slice(1, 0)), Arc::new(full.slice(0, 0))]);
    assert_eq!(
        error.message(),
        "Compute error: concat requires input of at least one array"
    );
}

#[test]
fn values_of_more_dictionaries_than_keys_can_number() {
    let flags = |len: usize| -> ArrayRef { Arc::new(BooleanArray::from(vec![true; len])) };
    let dictionary = |len: usize| -> ArrayRef {
        Arc::new(DictionaryArray::<Int8Type>::new(Int8Array::from(vec![0]), flags(len)))
    };
    let error = failure(&[dictionary(100), dictionary(100)]);
    assert!(matches!(error, ConcatError::DictionaryKeyOverflow));
    assert_eq!(error.message(), "Dictionary key bigger than the key type");

    let distinct = |start: i32| -> ArrayRef {
        let values = Int32Array::from_iter_values(start..start + 100);
        let keys = Int8Array::from_iter_values(0..100);
        Arc::new(DictionaryArray::<Int8Type>::new(keys, Arc::new(values)))
    };
    let error = failure(&[distinct(0), distinct(100)]);
    assert!(matches!(error, ConcatError::DictionaryKeyOverflow));
    // As many distinct values as there are keys are merged.
    match attempt(&[distinct(0), distinct(28)]) {
        Some(Ok(array)) => assert_eq!(array.len(), 200),
        _ => panic!("the arrays were not concatenated"),
    }
    let error = failure(&[distinct(0), distinct(29)]);
    assert!(matches!(error, ConcatError::DictionaryKeyOverflow));
}

#[test]
fn values_of_dictionaries_that_do_not_go_into_one_array() {
    let dictionary = || -> ArrayRef {
        Arc::new(DictionaryArray::<Int8Type>::new(Int8Array::from(vec![0]), list_view(1)))
    };
    let error = failure(&[dictionary(), dictionary()]);
    assert!(matches!(error, ConcatError::DictionaryValueOverflow));
    assert_eq!(error.message(), "Dictionary values too large for one array");
}

#[test]
fn lists_whose_items_may_not_be_null() {
    let list = |keys: Vec<i32>, values: StringArray, rows: usize| -> ArrayRef {
        let keys = PrimitiveArray::<Int32Type>::from(keys);
        let items = DictionaryArray::<Int32Type>::new(keys, Arc::new(values));
        let field = Arc::new(Field::new("item", items.data_type().clone(), false));
        let offsets = OffsetBuffer::from_lengths(std::iter::repeat_n(1, rows));
        Arc::new(ListArray::new(field, offsets, Arc::new(items), None))
    };
    let full = list(vec![0, 0, 0], StringArray::from(vec!["a"]), 3);
    let empty = list(vec![], StringArray::from(vec![None::<&str>]), 0);
    let error = failure(&[full.clone(), empty]);
    assert!(matches!(error, ConcatError::Arrow(_)));
    assert!(error.message().contains("cannot contain nulls"));
    assert!(matches!(attempt(&[full.clone(), full]), Some(Ok(_))));
}

#[test]
fn structs_with_nulls_where_none_may_be() {
    let values: ArrayRef = Arc::new(StringArray::from(vec![Some("a"), None]));
    let batch = |keys: Vec<i8>| -> ArrayRef {
        let column: ArrayRef =
            Arc::new(DictionaryArray::<Int8Type>::new(Int8Array::from(keys), values.clone()));
        let field = Field::new("column", column.data_type().clone(), false);
        let batch = RecordBatch::try_new(Arc::new(Schema::new(vec![field])), vec![column]).unwrap();
        Arc::new(StructArray::from(batch))
    };
    let error = failure(&[batch(vec![0]), batch(vec![1])]);
    assert!(matches!(error, ConcatError::Arrow(_)));
    assert!(error.message().contains("unmasked nulls"));
    assert!(matches!(attempt(&[batch(vec![0]), batch(vec![0])]), Some(Ok(_))));
}

#[test]
fn limits_of_run_ends() {
    let long = runs(vec![20_000]);
    assert!(attempt(&[Arc::new(long.clone()), Arc::new(long.clone())]).is_none());
    match attempt(&[Arc::new(long.clone()), Arc::new(runs(vec![12_767]))]) {
        Some(Ok(array)) => assert_eq!(array.len(), 32_767),
        _ => panic!("the arrays were not concatenated"),
    }
    match attempt(&[Arc::new(long.slice(5_000, 10)), Arc::new(long)]) {
        Some(Ok(array)) => assert_eq!(array.len(), 20_010),
        _ => panic!("the arrays were not concatenated"),
    }
}

#[test]
fn limits_of_lengths() {
    let long: ArrayRef = Arc::new(NullArray::new(usize::MAX));
    assert!(attempt(&[long.clone(), Arc::new(NullArray::new(1))]).is_none());
    match attempt(&[long, Arc::new(NullArray::new(0))]) {
        Some(Ok(array)) => assert_eq!(array.len(), usize::MAX),
        _ => panic!("the arrays were not concatenated"),
    }
}

#[test]
fn arrays_that_are_not_copied() {
    assert!(attempt(&[list_view(1), list_view(2)]).is_none());
    match attempt(&[list_view(2)]) {
        Some(Ok(array)) => {
            assert_eq!(array.len(), 2);
            assert_eq!(array.data_type(), list_view(2).data_type());
        }
        _ => panic!("the array was not given back"),
    }
    let fixed = |values: RunArray<Int16Type>| -> ArrayRef {
        let field = Arc::new(Field::new("item", values.data_type().clone(), true));
        Arc::new(FixedSizeListArray::new(field, 1, Arc::new(values), None))
    };
    let full = runs(vec![1, 3]);
    // Runs that are slices are not copied, but put together anew.
    match attempt(&[fixed(full.slice(1, 2)), fixed(full.clone())]) {
        Some(Ok(array)) => {
            assert_eq!(array.len(), 5);
            let items = array.as_fixed_size_list().values().as_run::<Int16Type>();
            assert_eq!(items.run_ends().values(), &[2, 3, 5]);
        }
        _ => panic!("the arrays were not concatenated"),
    }
    assert!(matches!(attempt(&[fixed(full.slice(0, 2)), fixed(full)]), Some(Ok(_))));
}

fn batch(schema: &Arc<Schema>, column: ArrayRef) -> Batch {
    match Batch::try_new(schema.clone(), vec![AnyArray::new(column)]) {
        Ok(batch) => batch,
        Err(error) => panic!("{error}"),
    }
}

#[test]
fn batches_whose_columns_do_not_suit_the_schema() {
    let nullable = Arc::new(Schema::new(vec![Field::new("a", DataType::Int32, true)]));
    let strict = Arc::new(Schema::new(vec![Field::new("a", DataType::Int32, false)]));
    let other = Arc::new(Schema::new(vec![Field::new("a", DataType::Int64, true)]));
    let column = |values: Vec<Option<i32>>| -> ArrayRef { Arc::new(Int32Array::from(values)) };
    let batches = [
        batch(&nullable, column(vec![Some(1), None])),
        batch(&nullable, column(vec![Some(2)])),
    ];
    match concat_batches(&strict, &batches) {
        Err(ConcatError::Arrow(error)) => assert!(error.to_string().contains("non-nullable")),
        _ => panic!("the batches were not refused"),
    }
    match concat_batches(&other, &batches) {
        Err(ConcatError::Arrow(error)) => assert!(error.to_string().contains("column types must match")),
        _ => panic!("the batches were not refused"),
    }
    match concat_batches(&nullable, &batches) {
        Ok(out) => {
            let column = out.column(0).map(|array| make_array(array.to_data()));
            let expected: ArrayRef = Arc::new(Int32Array::from(vec![Some(1), None, Some(2)]));
            assert_eq!(column, Some(expected));
            assert!(out.column(1).is_none());
        }
        Err(error) => panic!("{}", error.message()),
    }
}

#[test]
fn limits_of_batches() {
    let one = Arc::new(Schema::new(vec![Field::new("a", DataType::Int32, true)]));
    let two = Arc::new(Schema::new(vec![
        Field::new("a", DataType::Int32, true),
        Field::new("b", DataType::Int32, true),
    ]));
    let narrow = batch(&one, Arc::new(Int32Array::from(vec![1])));
    assert!(checked_concat_batches(&two, &[narrow]).is_none());

    let item = Arc::new(Field::new("item", DataType::Int32, true));
    let views = Arc::new(Schema::new(vec![Field::new("a", DataType::ListView(item.clone()), true)]));
    assert!(checked_concat_batches(&views, &[]).is_none());
    let lists = Arc::new(Schema::new(vec![
        Field::new("a", DataType::List(item.clone()), true),
        Field::new("b", DataType::FixedSizeList(item, 3), true),
        Field::new("c", DataType::Dictionary(Box::new(DataType::Int8), Box::new(DataType::Utf8)), true),
    ]));
    match checked_concat_batches(&lists, &[]) {
        Some(Ok(out)) => {
            assert_eq!(out.num_columns(), 3);
            assert_eq!(out.num_rows(), 0);
        }
        _ => panic!("no empty batch was made"),
    }

    let none = Arc::new(Schema::empty());
    let rows = |count: usize| match Batch::without_columns(none.clone(), count) {
        Ok(batch) => batch,
        Err(error) => panic!("{error}"),
    };
    assert!(checked_concat_batches(&none, &[rows(usize::MAX), rows(1)]).is_none());
    match checked_concat_batches(&none, &[rows(3), rows(4)]) {
        Some(Ok(out)) => assert_eq!(out.num_rows(), 7),
        _ => panic!("the batches were not concatenated"),
    }
}

#[test]
fn batches_are_made_of_columns_of_one_length() {
    let two = Arc::new(Schema::new(vec![
        Field::new("a", DataType::Int32, true),
        Field::new("b", DataType::Int32, true),
    ]));
    let column = |values: Vec<i32>| AnyArray::new(Int32Array::from(values));
    assert!(Batch::try_new(two.clone(), vec![column(vec![1])]).is_err());
    assert!(Batch::try_new(two.clone(), vec![column(vec![1]), column(vec![1, 2])]).is_err());
    assert!(Batch::try_new(two.clone(), vec![column(vec![1]), column(vec![2])]).is_ok());
    assert!(Batch::without_columns(two, 3).is_err());
}

#[test]
fn when_dictionary_values_are_merged() {
    let bytes = Shape::Bytes { large: false };
    let numbers = Shape::Primitive(Primitive::Int32);
    assert!(!should_merge_dictionary_values(true, bytes, Some(10), 127, 5));
    assert!(should_merge_dictionary_values(false, bytes, Some(5), 127, 5));
    assert!(!should_merge_dictionary_values(false, bytes, Some(4), 127, 5));
    assert!(should_merge_dictionary_values(false, numbers, Some(128), 127, 500));
    assert!(should_merge_dictionary_values(false, numbers, None, 127, 500));
    assert!(!should_merge_dictionary_values(false, Shape::Boolean, Some(128), 127, 5));
}

#[test]
fn the_message_names_each_type_once() {
    let types = vec![DataType::Int8, DataType::Utf8, DataType::Int8, DataType::Null];
    let texts: Vec<String> = ["one", "two", "three", "four"].iter().map(|text| text.to_string()).collect();
    assert_eq!(
        mismatch_message(&types, &texts),
        "It is not possible to concatenate arrays of different data types (one, two, four)."
    );
}

#[test]
fn concatenation_is_associative() {
    let array = |values: Vec<Option<&str>>| -> ArrayRef { Arc::new(StringArray::from(values)) };
    let (a, b, c) = (array(vec![Some("x"), None]), array(vec![]), array(vec![Some("y")]));
    let join = |arrays: &[ArrayRef]| match attempt(arrays) {
        Some(Ok(array)) => array,
        _ => panic!("the arrays were not concatenated"),
    };
    let staged = join(&[join(&[a.clone(), b.clone()]), c.clone()]);
    assert_eq!(&staged, &join(&[a.clone(), b, c.clone()]));
    assert_eq!(&staged, &join(&[a, c]));
}

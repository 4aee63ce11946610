use std::sync::Arc;

use arrow_array::builder::{BooleanBuilder, Int32Builder, ListBuilder, StringDictionaryBuilder};
use arrow_array::cast::AsArray;
use arrow_array::types::{Int16Type, Int32Type, Int8Type};
use arrow_array::{
    make_array, new_empty_array, Array, ArrayRef, BinaryViewArray, BooleanArray, DictionaryArray,
    FixedSizeListArray, Int16Array, Int32Array, Int64Array, Int8Array, LargeStringArray, ListArray,
    RunArray, StringArray, StructArray, UnionArray,
};
use arrow_buffer::{Buffer, OffsetBuffer, ScalarBuffer};
use arrow_schema::{DataType, Field, Schema, UnionFields};

use arrow_concat::batches::{checked_concat_batches, concat_batches};
use arrow_concat::concat::checked_concat;
use arrow_concat::error::ConcatError;
use arrow_concat::outside::AnyArray;
use arrow_concat::records::Batch;

fn attempt(arrays: &[ArrayRef]) -> Result<ArrayRef, ConcatError> {
    let arrays: Vec<AnyArray> = arrays.iter().map(|array| AnyArray::new(array.clone())).collect();
    match checked_concat(&arrays) {
        Some(result) => result.map(|array| make_array(array.to_data())),
        None => panic!("the arrays exceed a limit"),
    }
}

fn joined(arrays: &[ArrayRef]) -> ArrayRef {
    match attempt(arrays) {
        Ok(array) => array,
        Err(error) => panic!("{}", error.message()),
    }
}

fn failure(arrays: &[ArrayRef]) -> ConcatError {
    match attempt(arrays) {
        Ok(_) => panic!("the arrays were concatenated"),
        Err(error) => error,
    }
}

/// Cuts an array at every place and puts it together again.
fn cut_and_joined(array: ArrayRef) {
    for cut in 0..=array.len() {
        let out = joined(&[array.slice(0, cut), array.slice(cut, array.len() - cut)]);
        assert_eq!(&out, &array);
    }
}

fn lists() -> ArrayRef {
    let mut builder = ListBuilder::new(Int32Builder::new());
    builder.append_value([Some(1), None]);
    builder.append_null();
    builder.append_value([]);
    builder.append_value([Some(2), Some(3), Some(4)]);
    Arc::new(builder.finish())
}

#[test]
fn an_array_cut_in_two_is_joined_again() {
    cut_and_joined(Arc::new(Int32Array::from(vec![Some(1), None, Some(3)])));
    cut_and_joined(Arc::new(BooleanArray::from(vec![Some(true), None, Some(false)])));
    cut_and_joined(Arc::new(StringArray::from(vec![Some("a"), None, Some("bcd")])));
    cut_and_joined(Arc::new(LargeStringArray::from(vec![Some("a"), None, Some("bcd")])));
    cut_and_joined(Arc::new(BinaryViewArray::from_iter_values([b"more than twelve bytes"])));
    cut_and_joined(lists());
    cut_and_joined(Arc::new(FixedSizeListArray::from_iter_primitive::<Int32Type, _, _>(
        vec![Some(vec![Some(1), Some(2)]), None, Some(vec![Some(3), None])],
        2,
    )));
    let column: ArrayRef = Arc::new(StringArray::from(vec![Some("x"), None]));
    let field = Arc::new(Field::new("column", DataType::Utf8, true));
    cut_and_joined(Arc::new(StructArray::from(vec![(field, column)])));
}

#[test]
fn a_dictionary_cut_in_two_is_joined_again() {
    let keys = Int8Array::from(vec![Some(2), None, Some(0), Some(2)]);
    let values = StringArray::from(vec!["a", "b", "c"]);
    cut_and_joined(Arc::new(DictionaryArray::<Int8Type>::new(keys, Arc::new(values))));
    // Twice as many values as the keys can number.
    let keys = Int8Array::from_iter_values(0..100);
    let values = Int32Array::from_iter_values(0..100);
    let array: ArrayRef = Arc::new(DictionaryArray::<Int8Type>::new(keys, Arc::new(values)));
    let out = joined(&[array.slice(0, 60), array.slice(60, 40)]);
    assert_eq!(&out, &array);
}

#[test]
fn an_empty_array_is_an_identity_element() {
    let column: ArrayRef = Arc::new(Int32Array::from(vec![Some(1), None]));
    let field = Arc::new(Field::new("column", DataType::Int32, true));
    let structs: ArrayRef = Arc::new(StructArray::from(vec![(field, column.clone())]));
    for array in [column, lists(), structs] {
        let empty = new_empty_array(array.data_type());
        let twice = joined(&[array.clone(), array.clone()]);
        assert_eq!(&joined(&[empty.clone(), array.clone()]), &array);
        assert_eq!(&joined(&[array.clone(), empty.clone()]), &array);
        assert_eq!(&joined(&[array.clone(), empty, array]), &twice);
    }
}

fn batch(schema: &Arc<Schema>, columns: Vec<ArrayRef>) -> Batch {
    let columns = columns.into_iter().map(AnyArray::new).collect();
    match Batch::try_new(schema.clone(), columns) {
        Ok(batch) => batch,
        Err(error) => panic!("{error}"),
    }
}

fn columns(batch: &Batch) -> Vec<ArrayRef> {
    (0..batch.num_columns())
        .filter_map(|index| batch.column(index))
        .map(|column| make_array(column.to_data()))
        .collect()
}

#[test]
fn a_batch_cut_in_two_is_joined_again() {
    let schema = Arc::new(Schema::new(vec![
        Field::new("a", DataType::Int32, true),
        Field::new("b", DataType::Utf8, false),
    ]));
    let parts: Vec<ArrayRef> = vec![
        Arc::new(Int32Array::from(vec![Some(1), None, Some(3)])),
        Arc::new(StringArray::from(vec!["x", "y", "z"])),
    ];
    for cut in 0..=3 {
        let head = batch(&schema, parts.iter().map(|part| part.slice(0, cut)).collect());
        let tail = batch(&schema, parts.iter().map(|part| part.slice(cut, 3 - cut)).collect());
        match concat_batches(&schema, &[head, tail]) {
            Ok(out) => {
                assert_eq!(out.schema(), schema);
                assert_eq!(columns(&out), parts);
            }
            Err(error) => panic!("{}", error.message()),
        }
    }
    match concat_batches(&schema, &[batch(&schema, parts.clone())]) {
        Ok(out) => assert_eq!(columns(&out), parts),
        Err(error) => panic!("{}", error.message()),
    }
}

#[test]
fn differing_types_are_told_before_the_schema_refuses() {
    let ints = Arc::new(Schema::new(vec![Field::new("a", DataType::Int32, true)]));
    let longs = Arc::new(Schema::new(vec![Field::new("a", DataType::Int64, true)]));
    let batches = [
        batch(&ints, vec![Arc::new(Int32Array::from(vec![1]))]),
        batch(&longs, vec![Arc::new(Int64Array::from(vec![2]))]),
    ];
    let schema = Arc::new(Schema::new(vec![Field::new("a", DataType::Utf8, true)]));
    match checked_concat_batches(&schema, &batches) {
        Some(Err(error)) => assert_eq!(
            error.message(),
            "Invalid argument error: It is not possible to concatenate arrays of different data types (Int32, Int64)."
        ),
        _ => panic!("the batches were not refused"),
    }
}

#[test]
fn a_struct_fails_as_its_first_failing_column_does() {
    let runs = || -> ArrayRef {
        let runs = RunArray::<Int16Type>::try_new(&Int16Array::from(vec![1]), &Int32Array::from(vec![1]));
        Arc::new(runs.unwrap().slice(0, 0))
    };
    let flags = || -> ArrayRef {
        let values: ArrayRef = Arc::new(BooleanArray::from(vec![true; 100]));
        Arc::new(DictionaryArray::<Int8Type>::new(Int8Array::from(Vec::<i8>::new()), values))
    };
    let pair = |first: ArrayRef, second: ArrayRef| -> ArrayRef {
        let field = |array: &ArrayRef| Arc::new(Field::new("x", array.data_type().clone(), true));
        Arc::new(StructArray::from(vec![(field(&first), first), (field(&second), second)]))
    };
    let error = failure(&[pair(runs(), flags()), pair(runs(), flags())]);
    assert!(matches!(error, ConcatError::Compute(_)));
    let error = failure(&[pair(flags(), runs()), pair(flags(), runs())]);
    assert!(matches!(error, ConcatError::DictionaryKeyOverflow));
}

#[test]
fn types_of_structs_and_dictionaries_are_told_in_full() {
    let column: ArrayRef = Arc::new(Int32Array::from(vec![1]));
    let field = Arc::new(Field::new("x", DataType::Int32, true));
    let error = failure(&[
        Arc::new(StructArray::from(vec![(field, column.clone())])),
        Arc::new(DictionaryArray::<Int8Type>::new(Int8Array::from(vec![0]), column)),
    ]);
    assert_eq!(
        error.message(),
        "Invalid argument error: It is not possible to concatenate arrays of different data types (Struct(x Int32), Dictionary(Int8, Int32))."
    );
}

#[test]
fn the_dictionaries_of_columns_are_merged_too() {
    let column = || -> ArrayRef {
        let mut builder = StringDictionaryBuilder::<Int32Type>::new();
        builder.append_value("a");
        Arc::new(builder.finish())
    };
    let structs = || -> ArrayRef {
        let column = column();
        let field = Arc::new(Field::new("x", column.data_type().clone(), true));
        Arc::new(StructArray::from(vec![(field, column)]))
    };
    let out = joined(&[structs(), structs()]);
    let column = out.as_struct().column(0).as_dictionary::<Int32Type>();
    assert_eq!(column.values().len(), 1);
}

#[test]
fn bytes_left_over_in_buffers_do_not_matter() {
    let offsets = Buffer::from_slice_ref([0u8, 0, 0, 0, 2, 0, 0, 0, 9, 9]);
    let offsets = || OffsetBuffer::new(ScalarBuffer::<i32>::from(offsets.clone()));
    let strings: ArrayRef = Arc::new(StringArray::new(offsets(), Buffer::from(b"xy"), None));
    let out = joined(&[strings.clone(), strings.clone()]);
    assert_eq!(out.as_string::<i32>(), &StringArray::from(vec!["xy", "xy"]));

    let field = Arc::new(Field::new("item", DataType::Int32, true));
    let items: ArrayRef = Arc::new(Int32Array::from(vec![1, 2]));
    let lists: ArrayRef = Arc::new(ListArray::new(field, offsets(), items, None));
    assert_eq!(joined(&[lists.clone(), lists]).as_list::<i32>().values().len(), 4);

    let number = ScalarBuffer::<i32>::from(Buffer::from_slice_ref([0u8, 0, 0, 0, 9, 9]));
    let keys = Int32Array::new(number.clone(), None);
    let first: ArrayRef = Arc::new(DictionaryArray::<Int32Type>::new(keys.clone(), strings));
    let second: ArrayRef = Arc::new(DictionaryArray::<Int32Type>::new(
        keys,
        Arc::new(StringArray::from(vec!["z"])),
    ));
    assert_eq!(joined(&[first, second]).len(), 2);

    let values: ArrayRef = Arc::new(Int32Array::new(number, None));
    let dictionary = |values: ArrayRef| -> ArrayRef {
        Arc::new(DictionaryArray::<Int8Type>::new(Int8Array::from(vec![0]), values))
    };
    let out = joined(&[dictionary(values), dictionary(Arc::new(Int32Array::from(vec![0])))]);
    assert_eq!(out.as_dictionary::<Int8Type>().values().len(), 1);
}

#[test]
fn nulls_of_unions_are_left_to_arrow() {
    let child: ArrayRef = Arc::new(Int32Array::from(vec![None::<i32>]));
    let fields = UnionFields::new(vec![5], vec![Field::new("x", DataType::Int32, true)]);
    let union = UnionArray::try_new(fields, vec![5i8].into(), Some(vec![0].into()), vec![child]);
    let union: ArrayRef = Arc::new(union.unwrap());
    let field = Arc::new(Field::new("u", union.data_type().clone(), false));
    let structs: ArrayRef = Arc::new(StructArray::from(vec![(field, union)]));
    assert_eq!(joined(&[structs.clone(), structs]).len(), 2);
}

#[test]
fn lists_of_dictionaries_without_nulls_are_joined() {
    let lists = |values: Vec<&str>| -> ArrayRef {
        let keys = Int32Array::from(vec![0]);
        let items = DictionaryArray::<Int32Type>::new(keys, Arc::new(StringArray::from(values)));
        let field = Arc::new(Field::new("item", items.data_type().clone(), false));
        let offsets = OffsetBuffer::from_lengths([1]);
        Arc::new(ListArray::new(field, offsets, Arc::new(items), None))
    };
    assert_eq!(joined(&[lists(vec!["a"]), lists(vec!["b", "c"])]).len(), 2);
}

#[test]
fn null_rows_of_lists_keep_their_lengths() {
    let items: ArrayRef = Arc::new(Int32Array::from(vec![1, 2, 3]));
    let field = Arc::new(Field::new("item", DataType::Int32, true));
    let offsets = OffsetBuffer::from_lengths([2, 1]);
    let nulls = Some(vec![false, true].into());
    let lists: ArrayRef = Arc::new(ListArray::new(field, offsets, items, nulls));
    let out = joined(&[lists.clone(), lists.slice(0, 1)]);
    assert_eq!(out.as_list::<i32>().value_offsets(), &[0, 2, 3, 5]);
    assert_eq!(out.as_list::<i32>().values().len(), 5);
}

#[test]
fn runs_of_flags_are_joined() {
    let runs = || -> ArrayRef {
        let mut flags = BooleanBuilder::new();
        flags.append_value(true);
        flags.append_null();
        let runs = RunArray::<Int16Type>::try_new(&Int16Array::from(vec![1, 3]), &flags.finish());
        Arc::new(runs.unwrap())
    };
    assert_eq!(joined(&[runs(), runs()]).len(), 6);
}

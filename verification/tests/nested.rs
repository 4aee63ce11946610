use std::sync::Arc;

use arrow_array::cast::AsArray;
use arrow_array::types::{Int16Type, Int8Type};
use arrow_array::{
    make_array, Array, ArrayRef, BooleanArray, DictionaryArray, FixedSizeListArray, Int16Array,
    Int32Array, Int8Array, IntervalDayTimeArray, IntervalMonthDayNanoArray, ListArray, MapArray,
    RunArray, StringArray, StringViewArray, StructArray, UnionArray,
};
use arrow_buffer::{Buffer, IntervalDayTime, IntervalMonthDayNano, OffsetBuffer, ScalarBuffer};
use arrow_data::ArrayData;
use arrow_schema::{DataType, Field, Schema, UnionFields, UnionMode};

use arrow_concat::batches::checked_concat_batches;
use arrow_concat::concat::checked_concat;
use arrow_concat::dictionary::concat_known_dictionaries;
use arrow_concat::error::ConcatError;
use arrow_concat::outside::AnyArray;

fn attempt(arrays: &[ArrayRef]) -> Result<ArrayRef, ConcatError> {
    let arrays: Vec<AnyArray> = arrays.iter().map(|array| AnyArray::new(array.clone())).collect();
    match checked_concat(&arrays) {
        Some(result) => result.map(|array| make_array(array.to_data())),
        None => panic!("the arrays exceed a limit"),
    }
}

fn joined(arrays: &[ArrayRef]) -> ArrayRef {
    match attempt(arrays) {
        Ok(array) => array,
        Err(error) => panic!("{}", error.message()),
    }
}

/// A dictionary of a hundred values, as many as two of which eight bits cannot number.
fn dictionary(len: usize) -> ArrayRef {
    let keys = Int8Array::from_iter_values((0..len).map(|key| (key % 100) as i8));
    let values = StringViewArray::from_iter_values((0..100).map(|value| format!("value {value}")));
    Arc::new(DictionaryArray::<Int8Type>::new(keys, Arc::new(values)))
}

fn fixed_lists(size: i32, items: ArrayRef) -> ArrayRef {
    let field = Arc::new(Field::new("item", items.data_type().clone(), true));
    Arc::new(FixedSizeListArray::new(field, size, items, None))
}

fn maps(values: ArrayRef) -> ArrayRef {
    let keys: ArrayRef = Arc::new(Int32Array::from_iter_values(0..values.len() as i32));
    let entries = StructArray::from(vec![
        (Arc::new(Field::new("keys", DataType::Int32, false)), keys),
        (Arc::new(Field::new("values", values.data_type().clone(), true)), values.clone()),
    ]);
    let field = Arc::new(Field::new("entries", entries.data_type().clone(), false));
    let offsets = OffsetBuffer::from_lengths(vec![2; values.len() / 2]);
    Arc::new(MapArray::new(field, offsets, entries, None, false))
}

fn unions(values: ArrayRef, dense: bool) -> ArrayRef {
    let len = values.len();
    let fields = UnionFields::new(
        vec![3, 5],
        vec![
            Field::new("a", DataType::Int32, true),
            Field::new("b", values.data_type().clone(), true),
        ],
    );
    let numbers: ArrayRef = Arc::new(Int32Array::from_iter_values(0..len as i32));
    let ids: Vec<i8> = (0..len).map(|slot| if slot % 3 == 0 { 3 } else { 5 }).collect();
    let offsets: Option<ScalarBuffer<i32>> =
        dense.then_some((0..len as i32).rev().collect::<Vec<i32>>().into());
    Arc::new(UnionArray::try_new(fields, ids.into(), offsets, vec![numbers, values]).unwrap())
}

fn cut_and_joined(array: ArrayRef, cut: usize) {
    let out = joined(&[array.slice(0, cut), array.slice(cut, array.len() - cut)]);
    assert_eq!(&out, &array);
}

#[test]
fn slices_of_one_dictionary_within_other_arrays_are_joined() {
    cut_and_joined(fixed_lists(2, dictionary(200)), 30);
    cut_and_joined(maps(dictionary(200)), 30);
    for dense in [false, true] {
        cut_and_joined(unions(dictionary(200), dense), 70);
    }
    cut_and_joined(fixed_lists(1, fixed_lists(2, dictionary(200))), 30);
    let list = fixed_lists(2, dictionary(200));
    let out = joined(&[list.slice(0, 30), list.slice(30, 70)]);
    let kept = out.as_fixed_size_list().values().as_dictionary::<Int8Type>();
    let shared = list.as_fixed_size_list().values().as_dictionary::<Int8Type>();
    assert!(kept.values().to_data().ptr_eq(&shared.values().to_data()));
}

#[test]
fn separate_dictionaries_within_other_arrays_run_out_of_keys() {
    for make in [|| fixed_lists(2, dictionary(20)), || maps(dictionary(20)), || {
        unions(dictionary(20), true)
    }] {
        let error = match attempt(&[make(), make()]) {
            Ok(_) => panic!("the dictionaries were concatenated"),
            Err(error) => error,
        };
        assert!(matches!(error, ConcatError::DictionaryKeyOverflow));
    }
}

#[test]
fn null_lists_of_slices_are_joined() {
    let items = dictionary(6);
    let field = Arc::new(Field::new("item", items.data_type().clone(), true));
    let nulls = Some(vec![true, false, true].into());
    let lists: ArrayRef = Arc::new(FixedSizeListArray::new(field, 2, items, nulls));
    cut_and_joined(lists, 2);
    let field = Arc::new(Field::new("item", dictionary(0).data_type().clone(), true));
    let nulls = Some(vec![true, false, true].into());
    let empty: ArrayRef = Arc::new(FixedSizeListArray::new(field, 0, dictionary(0), nulls));
    cut_and_joined(empty, 2);
}

#[test]
fn intervals_need_not_lie_where_integers_would() {
    let bytes: Vec<u8> = (0..28).collect();
    let buffer = Buffer::from_slice_ref(&bytes).slice(4);
    let days: ArrayRef = Arc::new(IntervalDayTimeArray::new(
        ScalarBuffer::<IntervalDayTime>::from(buffer),
        Some(vec![true, false, true].into()),
    ));
    let bytes: Vec<u8> = (0..40).collect();
    let buffer = Buffer::from_slice_ref(&bytes).slice(8);
    let months: ArrayRef = Arc::new(IntervalMonthDayNanoArray::new(
        ScalarBuffer::<IntervalMonthDayNano>::from(buffer),
        None,
    ));
    for intervals in [days, months] {
        let twice = joined(&[intervals.clone(), intervals.clone()]);
        let lists = fixed_lists(1, intervals.clone());
        let out = joined(&[lists.clone(), lists]);
        assert_eq!(out.as_fixed_size_list().values(), &twice);
        let keys = Int8Array::from_iter_values(0..intervals.len() as i8);
        let keys = || Int8Array::from(keys.values().iter().cycle().take(40).copied().collect::<Vec<i8>>());
        let first: ArrayRef = Arc::new(DictionaryArray::<Int8Type>::new(keys(), intervals.clone()));
        let copy = make_array(intervals.to_data()).slice(0, intervals.len());
        let copy = joined(&[copy.clone(), copy.slice(0, 0)]);
        let second: ArrayRef = Arc::new(DictionaryArray::<Int8Type>::new(keys(), copy));
        let out = joined(&[first, second]);
        assert_eq!(out.as_dictionary::<Int8Type>().values(), &twice);
    }
}

#[test]
fn unions_that_hold_intervals_are_joined() {
    let days: ArrayRef = Arc::new(IntervalDayTimeArray::from_iter_values(
        (0..9).map(|day| IntervalDayTime::new(day, day)),
    ));
    for dense in [false, true] {
        cut_and_joined(unions(days.clone(), dense), 4);
    }
}

#[test]
fn run_ends_that_do_not_suit_are_not_taken() {
    let runs = |len: usize, ends: &[i16], stored: usize| {
        let ends_field = Arc::new(Field::new("run_ends", DataType::Int16, false));
        let values_field = Arc::new(Field::new("values", DataType::Int32, true));
        let ends = ArrayData::builder(DataType::Int16)
            .len(stored)
            .add_buffer(Buffer::from_slice_ref(ends))
            .build()
            .unwrap();
        let values = Int32Array::from_iter_values(0..stored as i32).into_data();
        let data = ArrayData::builder(DataType::RunEndEncoded(ends_field, values_field))
            .len(len)
            .child_data(vec![ends, values])
            .build()
            .unwrap();
        AnyArray::new(make_array(data))
    };
    assert!(runs(5, &[2, 5], 2).is_valid());
    // More slots than the last run reaches.
    assert!(!runs(100, &[2, 5], 2).is_valid());
    assert!(checked_concat(&[runs(100, &[2, 5], 2), runs(5, &[2, 5], 2)]).is_none());
    assert!(checked_concat(&[runs(100, &[2, 5], 2)]).is_none());
    // More run ends than values.
    assert!(!runs(5, &[2, 5, 6, 7], 2).is_valid());
    assert!(checked_concat(&[runs(5, &[2, 5], 2), runs(5, &[2, 5, 6, 7], 2)]).is_none());
}

#[test]
fn type_ids_of_no_field_are_not_taken() {
    let union = |id: i8| {
        let fields = UnionFields::new(vec![0], vec![Field::new("a", DataType::Int32, true)]);
        let data = ArrayData::builder(DataType::Union(fields, UnionMode::Sparse))
            .len(1)
            .add_buffer(Buffer::from_slice_ref([id]))
            .child_data(vec![Int32Array::from(vec![7]).into_data()])
            .build()
            .unwrap();
        AnyArray::new(make_array(data))
    };
    assert!(union(0).is_valid());
    assert!(!union(4).is_valid());
    assert!(checked_concat(&[union(0), union(4)]).is_none());
    assert!(checked_concat(&[union(0), union(0)]).is_some());
}

#[test]
fn schemas_of_which_no_empty_batch_can_be_made() {
    let empty = |data_type: DataType| {
        let schema = Arc::new(Schema::new(vec![Field::new("a", data_type, true)]));
        checked_concat_batches(&schema, &[]).is_some()
    };
    let union = |id: i8| {
        let field = Arc::new(Field::new("x", DataType::Int32, true));
        DataType::Union([(id, field)].into_iter().collect(), UnionMode::Dense)
    };
    assert!(empty(union(1)));
    assert!(!empty(union(-1)));
    let runs = |values: DataType| {
        DataType::RunEndEncoded(
            Arc::new(Field::new("run_ends", DataType::Int16, false)),
            Arc::new(Field::new("values", values, true)),
        )
    };
    let nested = |size: i32| {
        let field = Arc::new(Field::new("item", runs(DataType::Int32), true));
        runs(DataType::FixedSizeList(field, size))
    };
    assert!(empty(nested(3)));
    assert!(!empty(nested(40000)));
}

#[test]
fn values_are_kept_or_merged_as_told() {
    let array = || {
        let values: ArrayRef = Arc::new(Int32Array::from_iter_values(10..20));
        AnyArray::new(DictionaryArray::<Int8Type>::new(Int8Array::from(vec![1; 5]), values))
    };
    let data_type = make_array(array().to_data()).data_type().clone();
    let values = |shared: bool| match concat_known_dictionaries(&[array(), array()], &data_type, shared) {
        Ok(out) => make_array(out.to_data()),
        Err(error) => panic!("{}", error.message()),
    };
    let kept = values(true);
    assert_eq!(kept.as_dictionary::<Int8Type>().values().len(), 10);
    assert_eq!(kept.as_dictionary::<Int8Type>().keys(), &Int8Array::from(vec![1; 10]));
    let merged = values(false);
    assert_eq!(merged.as_dictionary::<Int8Type>().values().len(), 1);
    assert_eq!(merged.as_dictionary::<Int8Type>().keys(), &Int8Array::from(vec![0; 10]));
}

#[test]
fn few_separate_values_are_put_behind_each_other() {
    let array = |value: &str| -> ArrayRef {
        let values: ArrayRef = Arc::new(StringArray::from(vec![value]));
        Arc::new(DictionaryArray::<Int8Type>::new(Int8Array::from(vec![Some(0), None, Some(0)]), values))
    };
    let out = joined(&[array("a"), array("a")]);
    let out = out.as_dictionary::<Int8Type>();
    assert_eq!(out.values().as_string::<i32>(), &StringArray::from(vec!["a", "a"]));
    assert_eq!(out.keys().value(2), 0);
    assert_eq!(out.keys().value(5), 1);
}

#[test]
fn runs_of_many_kinds_of_values_are_joined() {
    let flags: ArrayRef = Arc::new(BooleanArray::from(vec![Some(true), None, Some(false)]));
    let field = Arc::new(Field::new("item", DataType::Boolean, true));
    let lists: ArrayRef = Arc::new(ListArray::new(
        field.clone(),
        OffsetBuffer::from_lengths([1, 0, 2]),
        flags.clone(),
        None,
    ));
    let structs: ArrayRef = Arc::new(StructArray::from(vec![(field, flags.clone())]));
    let words: ArrayRef = Arc::new(StringArray::from(vec!["a", "b", "c"]));
    let words: ArrayRef =
        Arc::new(DictionaryArray::<Int8Type>::new(Int8Array::from(vec![0, 2, 1]), words));
    for values in [flags, lists, structs, words] {
        let ends = Int16Array::from(vec![1, 2, 4]);
        let runs = |values: &ArrayRef| -> ArrayRef {
            Arc::new(RunArray::<Int16Type>::try_new(&ends, values.as_ref()).unwrap())
        };
        let out = joined(&[runs(&values).slice(1, 3), runs(&values)]);
        assert_eq!(out.len(), 7);
        let out = out.as_run::<Int16Type>();
        assert_eq!(out.run_ends().values(), &[1, 3, 4, 5, 7]);
        assert_eq!(out.values(), &joined(&[values.slice(1, 2), values.clone()]));
    }
}

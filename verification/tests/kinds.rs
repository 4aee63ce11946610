use std::sync::Arc;

use arrow_array::builder::{
    FixedSizeListBuilder, Int32Builder, MapBuilder, StringBuilder, UnionBuilder,
};
use arrow_array::cast::AsArray;
use arrow_array::types::{
    ArrowDictionaryKeyType, ArrowPrimitiveType, Date32Type, Date64Type, Decimal128Type,
    Decimal256Type, Decimal32Type, Decimal64Type, DurationMicrosecondType,
    DurationMillisecondType, DurationNanosecondType, DurationSecondType, Float16Type, Float32Type,
    Float64Type, Int16Type, Int32Type, Int64Type, Int8Type, IntervalDayTimeType,
    IntervalMonthDayNanoType, IntervalYearMonthType, RunEndIndexType, Time32MillisecondType,
    Time32SecondType, Time64MicrosecondType, Time64NanosecondType, TimestampMicrosecondType,
    TimestampMillisecondType, TimestampNanosecondType, TimestampSecondType, UInt16Type, UInt32Type,
    UInt64Type, UInt8Type,
};
use arrow_array::{
    make_array, Array, ArrayRef, BinaryArray, BinaryViewArray, BooleanArray, DictionaryArray,
    FixedSizeBinaryArray, FixedSizeListArray, Int32Array, LargeBinaryArray, LargeListArray,
    LargeStringArray, MapArray, NullArray, PrimitiveArray, RunArray, StringArray, StringViewArray,
    StructArray, UnionArray,
};
use arrow_buffer::{i256, ArrowNativeType, IntervalDayTime, IntervalMonthDayNano, ScalarBuffer};
use arrow_schema::{DataType, Field};

use arrow_concat::outside::AnyArray;

fn joined(arrays: &[ArrayRef]) -> ArrayRef {
    let arrays: Vec<AnyArray> = arrays.iter().map(|array| AnyArray::new(array.clone())).collect();
    match arrow_concat::concat::checked_concat(&arrays) {
        Some(Ok(array)) => make_array(array.to_data()),
        Some(Err(error)) => panic!("{}", error.message()),
        None => panic!("the arrays exceed a limit"),
    }
}

/// Concatenates the arrays and finds each of them again in the result, at its place.
fn found_again(arrays: &[ArrayRef]) -> ArrayRef {
    let out = joined(arrays);
    assert_eq!(out.data_type(), arrays[0].data_type());
    let mut start = 0;
    for array in arrays {
        assert_eq!(&out.slice(start, array.len()), array);
        start += array.len();
    }
    assert_eq!(out.len(), start);
    out
}

fn primitives<T: ArrowPrimitiveType>(a: T::Native, b: T::Native, data_type: Option<DataType>) {
    let data_type = data_type.unwrap_or(T::DATA_TYPE);
    let first = PrimitiveArray::<T>::from_iter([Some(a), None, Some(b)])
        .with_data_type(data_type.clone());
    let second = PrimitiveArray::<T>::from_iter([Some(b), Some(a)]).with_data_type(data_type.clone());
    let expected = PrimitiveArray::<T>::from_iter([Some(a), None, Some(b), Some(b), Some(a)])
        .with_data_type(data_type);
    let expected: ArrayRef = Arc::new(expected);
    let out = found_again(&[Arc::new(first), Arc::new(second)]);
    assert_eq!(&out, &expected);
}

#[test]
fn integers_of_every_width() {
    primitives::<Int8Type>(-1, 2, None);
    primitives::<Int16Type>(-1, 2, None);
    primitives::<Int32Type>(-1, 2, None);
    primitives::<Int64Type>(-1, 2, None);
    primitives::<UInt8Type>(1, 2, None);
    primitives::<UInt16Type>(1, 2, None);
    primitives::<UInt32Type>(1, 2, None);
    primitives::<UInt64Type>(1, 2, None);
}

#[test]
fn floating_point_numbers() {
    primitives::<Float16Type>(Default::default(), Default::default(), None);
    primitives::<Float32Type>(1.5, -2.0, None);
    primitives::<Float64Type>(1.5, -2.0, None);
}

#[test]
fn decimal_numbers_keep_precision_and_scale() {
    primitives::<Decimal32Type>(1, 2, Some(DataType::Decimal32(7, 3)));
    primitives::<Decimal64Type>(1, 2, Some(DataType::Decimal64(11, 3)));
    primitives::<Decimal128Type>(1, 2, Some(DataType::Decimal128(23, 6)));
    primitives::<Decimal256Type>(i256::from_i128(1), i256::from_i128(2), Some(DataType::Decimal256(50, 6)));
}

#[test]
fn dates_and_times() {
    primitives::<Date32Type>(1, 2, None);
    primitives::<Date64Type>(1, 2, None);
    primitives::<Time32SecondType>(1, 2, None);
    primitives::<Time32MillisecondType>(1, 2, None);
    primitives::<Time64MicrosecondType>(1, 2, None);
    primitives::<Time64NanosecondType>(1, 2, None);
}

#[test]
fn timestamps_keep_time_zones() {
    let zone = |data_type: DataType| match data_type {
        DataType::Timestamp(unit, _) => Some(DataType::Timestamp(unit, Some("+01:00".into()))),
        other => Some(other),
    };
    primitives::<TimestampSecondType>(1, 2, zone(TimestampSecondType::DATA_TYPE));
    primitives::<TimestampMillisecondType>(1, 2, zone(TimestampMillisecondType::DATA_TYPE));
    primitives::<TimestampMicrosecondType>(1, 2, zone(TimestampMicrosecondType::DATA_TYPE));
    primitives::<TimestampNanosecondType>(1, 2, None);
}

#[test]
fn intervals_and_durations() {
    primitives::<IntervalYearMonthType>(1, 2, None);
    primitives::<IntervalDayTimeType>(IntervalDayTime::new(1, 2), IntervalDayTime::new(3, 4), None);
    primitives::<IntervalMonthDayNanoType>(
        IntervalMonthDayNano::new(1, 2, 3),
        IntervalMonthDayNano::new(4, 5, 6),
        None,
    );
    primitives::<DurationSecondType>(1, 2, None);
    primitives::<DurationMillisecondType>(1, 2, None);
    primitives::<DurationMicrosecondType>(1, 2, None);
    primitives::<DurationNanosecondType>(1, 2, None);
}

#[test]
fn strings_and_byte_strings() {
    let out = found_again(&[
        Arc::new(LargeStringArray::from(vec![Some("a"), None, Some("bc")]).slice(1, 2)),
        Arc::new(LargeStringArray::from(vec!["d", "ef"])),
    ]);
    assert_eq!(
        out.as_string::<i64>(),
        &LargeStringArray::from(vec![None, Some("bc"), Some("d"), Some("ef")])
    );
    let out = found_again(&[
        Arc::new(BinaryArray::from_vec(vec![b"a", b""])),
        Arc::new(BinaryArray::from_vec(vec![b"xyz"])),
    ]);
    assert_eq!(out.as_binary::<i32>(), &BinaryArray::from_vec(vec![b"a", b"", b"xyz"]));
    found_again(&[
        Arc::new(LargeBinaryArray::from_vec(vec![b"a", b""])),
        Arc::new(LargeBinaryArray::from_vec(vec![b"xyz"])),
    ]);
}

#[test]
fn views_of_strings_and_byte_strings() {
    let long = "a string of more than twelve bytes";
    let out = found_again(&[
        Arc::new(StringViewArray::from(vec![long, "short"])),
        Arc::new(StringViewArray::from(vec![Some("another long string to view"), None])),
    ]);
    assert_eq!(out.as_string_view().value(0), long);
    assert_eq!(out.as_string_view().value(2), "another long string to view");
    found_again(&[
        Arc::new(BinaryViewArray::from_iter_values([b"some bytes, more than twelve"])),
        Arc::new(BinaryViewArray::from_iter_values([b"other bytes, more than twelve"])),
    ]);
}

#[test]
fn nulls_and_byte_strings_of_fixed_length() {
    let out = joined(&[Arc::new(NullArray::new(3)), Arc::new(NullArray::new(4))]);
    assert_eq!(out.len(), 7);
    assert_eq!(out.data_type(), &DataType::Null);
    found_again(&[
        Arc::new(FixedSizeBinaryArray::try_from_iter([b"ab", b"cd"].iter()).unwrap()),
        Arc::new(FixedSizeBinaryArray::try_from_iter([b"ef"].iter()).unwrap()),
    ]);
}

#[test]
fn large_lists_of_lists() {
    let lists = |rows: Vec<Option<Vec<Option<i32>>>>| -> ArrayRef {
        Arc::new(LargeListArray::from_iter_primitive::<Int32Type, _, _>(rows))
    };
    let first = lists(vec![Some(vec![Some(1), None]), None, Some(vec![Some(2)])]);
    let second = lists(vec![Some(vec![]), Some(vec![Some(3), Some(4)])]);
    let out = found_again(&[first.clone(), second.clone()]);
    assert_eq!(out.as_list::<i64>().value_offsets(), &[0, 2, 2, 3, 3, 5]);

    let wrap = |values: ArrayRef, offsets: Vec<i64>| -> ArrayRef {
        let field = Arc::new(Field::new("item", values.data_type().clone(), true));
        let offsets = arrow_buffer::OffsetBuffer::new(ScalarBuffer::from(offsets));
        Arc::new(LargeListArray::new(field, offsets, values, None))
    };
    let out = found_again(&[
        wrap(first, vec![0, 1, 3]).slice(1, 1),
        wrap(second, vec![0, 2]),
    ]);
    assert_eq!(out.as_list::<i64>().values().len(), 4);
}

fn string_lists(rows: Vec<Option<[&str; 2]>>) -> FixedSizeListArray {
    let mut builder = FixedSizeListBuilder::new(StringBuilder::new(), 2);
    for row in rows {
        match row {
            Some(items) => {
                for item in items {
                    builder.values().append_value(item);
                }
                builder.append(true);
            }
            None => {
                builder.values().append_null();
                builder.values().append_null();
                builder.append(false);
            }
        }
    }
    builder.finish()
}

#[test]
fn lists_of_fixed_size_count_the_bytes_of_their_items() {
    let first = string_lists(vec![Some(["a", "bc"]), None]);
    let second = string_lists(vec![Some(["def", "g"])]);
    let out = found_again(&[Arc::new(first), Arc::new(second)]);
    let items = out.as_fixed_size_list().values().to_data();
    assert_eq!(items.buffers()[1].len(), 7);
    assert_eq!(items.buffers()[1].capacity(), 64);
}

#[test]
fn lists_of_fixed_size_in_lists_of_fixed_size() {
    let nest = |rows: Vec<Option<[&str; 2]>>| -> ArrayRef {
        let inner = string_lists(rows);
        let field = Arc::new(Field::new("item", inner.data_type().clone(), true));
        Arc::new(FixedSizeListArray::new(field, 2, Arc::new(inner), None))
    };
    let first = nest(vec![Some(["a", "b"]), None, Some(["c", "d"]), Some(["e", "f"])]);
    let second = nest(vec![Some(["g", "h"]), Some(["i", "j"])]);
    let out = found_again(&[first.slice(1, 1), second]);
    assert_eq!(out.len(), 2);
}

#[test]
fn items_beyond_the_last_list_of_fixed_size_are_left_out() {
    let field = Arc::new(Field::new("item", DataType::Int32, true));
    let lists = |values: Vec<i32>| -> ArrayRef {
        Arc::new(FixedSizeListArray::new(
            field.clone(),
            2,
            Arc::new(Int32Array::from(values)),
            None,
        ))
    };
    let out = joined(&[lists(vec![1, 2, 3, 4, 5]), lists(vec![6, 7])]);
    assert_eq!(out.len(), 3);
    let items = out.as_fixed_size_list().values().as_primitive::<Int32Type>();
    assert_eq!(items.values(), &[1, 2, 3, 4, 6, 7]);
    // One array alone loses them too.
    let out = joined(&[lists(vec![1, 2, 3])]);
    assert_eq!(out.as_fixed_size_list().values().len(), 2);
}

#[test]
fn words_and_a_mark() {
    let arr = joined(&[
        Arc::new(StringArray::from(vec!["hello", "world"])),
        Arc::new(StringArray::from(vec!["!"])),
    ]);
    assert_eq!(arr.len(), 3);
    assert_eq!(arr.as_string::<i32>().value(2), "!");
}

fn map_of(rows: Vec<Vec<(&str, i32)>>) -> MapArray {
    let mut builder = MapBuilder::new(None, StringBuilder::new(), Int32Builder::new());
    for row in rows {
        for (key, value) in row {
            builder.keys().append_value(key);
            builder.values().append_value(value);
        }
        builder.append(true).unwrap();
    }
    builder.finish()
}

#[test]
fn maps() {
    found_again(&[
        Arc::new(map_of(vec![vec![("a", 1), ("b", 2)], vec![("c", 3)]]).slice(1, 1)),
        Arc::new(map_of(vec![vec![], vec![("d", 4)]])),
    ]);
}

fn union_of(mut builder: UnionBuilder, values: Vec<(&str, i32)>) -> UnionArray {
    builder.append::<Float64Type>("c", 3.0).unwrap();
    for (name, value) in values {
        builder.append::<Int32Type>(name, value).unwrap();
    }
    builder.build().unwrap()
}

#[test]
fn unions() {
    found_again(&[
        Arc::new(union_of(UnionBuilder::new_dense(), vec![("a", 1), ("b", 2)])),
        Arc::new(union_of(UnionBuilder::new_dense(), vec![("a", 3), ("b", 4)]).slice(1, 2)),
    ]);
    found_again(&[
        Arc::new(union_of(UnionBuilder::new_sparse(), vec![("a", 1), ("b", 2)])),
        Arc::new(union_of(UnionBuilder::new_sparse(), vec![("a", 3), ("b", 4)]).slice(1, 2)),
    ]);
}

fn dictionary<K: ArrowDictionaryKeyType>(keys: Vec<Option<usize>>, values: ArrayRef) -> ArrayRef {
    let keys = PrimitiveArray::<K>::from_iter(keys.into_iter().map(|key| key.map(K::Native::usize_as)));
    Arc::new(DictionaryArray::<K>::new(keys, values))
}

fn merges<K: ArrowDictionaryKeyType>() {
    let first = dictionary::<K>(
        vec![Some(1), None, Some(1)],
        Arc::new(StringArray::from(vec!["unused", "b", "c"])),
    );
    let second = dictionary::<K>(
        vec![Some(2), Some(0)],
        Arc::new(StringArray::from(vec!["b", "unused", "d"])),
    );
    let out = found_again(&[first, second]);
    let values = out.as_dictionary::<K>().values().clone();
    let expected: ArrayRef = Arc::new(StringArray::from(vec!["b", "d"]));
    assert_eq!(&values, &expected);
}

#[test]
fn dictionaries_of_every_key_type_are_merged() {
    merges::<Int8Type>();
    merges::<Int16Type>();
    merges::<Int32Type>();
    merges::<Int64Type>();
    merges::<UInt8Type>();
    merges::<UInt16Type>();
    merges::<UInt32Type>();
    merges::<UInt64Type>();
}

fn merges_bytes(values: ArrayRef, more: ArrayRef) {
    let first = dictionary::<Int8Type>(vec![Some(1), Some(0)], values);
    let second = dictionary::<Int8Type>(vec![Some(0), Some(1)], more);
    let out = found_again(&[first, second]);
    assert_eq!(out.as_dictionary::<Int8Type>().values().len(), 3);
}

#[test]
fn dictionaries_of_every_comparable_value_type_are_merged() {
    merges_bytes(
        Arc::new(LargeStringArray::from(vec![Some("a"), None])),
        Arc::new(LargeStringArray::from(vec![None, Some("b")])),
    );
    merges_bytes(
        Arc::new(BinaryArray::from_vec(vec![b"a", b"b"])),
        Arc::new(BinaryArray::from_vec(vec![b"b", b"c"])),
    );
    merges_bytes(
        Arc::new(LargeBinaryArray::from_vec(vec![b"a", b"b"])),
        Arc::new(LargeBinaryArray::from_vec(vec![b"b", b"c"])),
    );
    merges_bytes(
        Arc::new(Int32Array::from(vec![Some(7), None])),
        Arc::new(Int32Array::from(vec![None, Some(8)])),
    );
}

#[test]
fn shared_dictionaries_stay_shared_when_their_values_outnumber_the_keys() {
    let values: ArrayRef =
        Arc::new(StringArray::from_iter_values((0..100).map(|value| value.to_string())));
    let signed = |key: usize| dictionary::<Int8Type>(vec![Some(key), None], values.clone());
    let out = found_again(&[signed(99), signed(3)]);
    assert_eq!(out.as_dictionary::<Int8Type>().values().len(), 100);
    assert!(values.to_data().ptr_eq(&out.as_dictionary::<Int8Type>().values().to_data()));

    let values: ArrayRef =
        Arc::new(StringArray::from_iter_values((0..200).map(|value| value.to_string())));
    let unsigned = |key: usize| dictionary::<UInt8Type>(vec![Some(key), None], values.clone());
    let out = found_again(&[unsigned(199), unsigned(3)]);
    assert!(values.to_data().ptr_eq(&out.as_dictionary::<UInt8Type>().values().to_data()));
}

#[test]
fn values_that_cannot_be_compared_are_put_one_after_the_other() {
    let first = dictionary::<Int8Type>(
        vec![Some(1)],
        Arc::new(BooleanArray::from(vec![true, false])),
    );
    let second = dictionary::<Int8Type>(
        vec![Some(0)],
        Arc::new(BooleanArray::from(vec![true, false])),
    );
    let out = found_again(&[first, second]);
    let out = out.as_dictionary::<Int8Type>();
    assert_eq!(out.values().len(), 4);
    assert_eq!(out.keys().values(), &[1, 2]);
}

#[test]
fn keys_of_null_slots_do_not_matter() {
    // The key of the null slot would leave the range of keys if it were shifted.
    let keys = PrimitiveArray::<Int8Type>::new(
        ScalarBuffer::from(vec![0, 127]),
        Some(vec![true, false].into()),
    );
    let values: ArrayRef = Arc::new(BooleanArray::from(vec![true, false]));
    let second: ArrayRef = Arc::new(DictionaryArray::<Int8Type>::new(keys, values));
    let first = dictionary::<Int8Type>(
        vec![Some(1)],
        Arc::new(BooleanArray::from(vec![false, true])),
    );
    let out = found_again(&[first, second]);
    let out = out.as_dictionary::<Int8Type>();
    assert_eq!(out.keys().values()[..2], [1, 2]);
    assert_eq!(out.keys().null_count(), 1);
}

fn runs<R: RunEndIndexType>(ends: Vec<usize>, values: Vec<i32>) -> RunArray<R> {
    let ends = PrimitiveArray::<R>::from_iter_values(ends.into_iter().map(R::Native::usize_as));
    RunArray::<R>::try_new(&ends, &Int32Array::from(values)).unwrap()
}

fn run_values<R: RunEndIndexType>(array: &RunArray<R>) -> Vec<i32> {
    let values = array.values().as_primitive::<Int32Type>();
    (0..array.len())
        .map(|row| values.value(array.get_physical_index(row)))
        .collect()
}

fn joins_runs<R: RunEndIndexType>() {
    let first = runs::<R>(vec![2, 5, 9], vec![10, 20, 30]);
    let second = runs::<R>(vec![1, 4], vec![40, 50]);
    let out = joined(&[Arc::new(first.clone()), Arc::new(second.clone())]);
    let out = out.as_run::<R>();
    let ends: Vec<usize> = out.run_ends().values().iter().map(|end| end.as_usize()).collect();
    assert_eq!(ends, [2, 5, 9, 10, 13]);
    let expected: Vec<i32> = [run_values(&first), run_values(&second)].concat();
    assert_eq!(run_values(out), expected);

    // Of a slice only the rows that lie in it count.
    let slice = first.slice(3, 4);
    assert_eq!(run_values(&slice), [20, 20, 30, 30]);
    let out = joined(&[Arc::new(slice), Arc::new(second)]);
    let out = out.as_run::<R>();
    let ends: Vec<usize> = out.run_ends().values().iter().map(|end| end.as_usize()).collect();
    assert_eq!(ends, [2, 4, 5, 8]);
    assert_eq!(run_values(out), [20, 20, 30, 30, 40, 50, 50, 50]);
}

#[test]
fn runs_of_every_index_type() {
    joins_runs::<Int16Type>();
    joins_runs::<Int32Type>();
    joins_runs::<Int64Type>();
}

#[test]
fn runs_without_rows_are_left_out() {
    let full = runs::<Int32Type>(vec![2], vec![10]);
    let out = joined(&[
        Arc::new(full.slice(1, 0)),
        Arc::new(full.clone()),
        Arc::new(full.slice(0, 0)),
    ]);
    assert_eq!(run_values(out.as_run::<Int32Type>()), [10, 10]);
}

#[test]
fn structs_in_structs() {
    let field = Arc::new(Field::new("x", DataType::Int32, true));
    let inner = |values: Vec<Option<i32>>| -> ArrayRef {
        let values: ArrayRef = Arc::new(Int32Array::from(values));
        Arc::new(StructArray::from(vec![(field.clone(), values)]))
    };
    let outer = |values: Vec<Option<i32>>| -> ArrayRef {
        let inner = inner(values);
        let field = Arc::new(Field::new("inner", inner.data_type().clone(), true));
        Arc::new(StructArray::from(vec![(field, inner)]))
    };
    found_again(&[outer(vec![Some(1), None]), outer(vec![Some(2)]).slice(0, 1)]);
}

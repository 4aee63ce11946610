use std::fmt::Debug;
use std::sync::Arc;

use arrow_array::builder::{GenericListBuilder, StringDictionaryBuilder};
use arrow_array::cast::AsArray;
use arrow_array::types::{
    ArrowDictionaryKeyType, Float16Type, Float32Type, Float64Type, Int16Type, Int32Type, Int64Type,
    Int8Type, UInt16Type, UInt32Type, UInt64Type, UInt8Type,
};
use arrow_array::{
    make_array, Array, ArrayAccessor, ArrayRef, BooleanArray, DictionaryArray, FixedSizeListArray,
    GenericListArray, Int32Array, Int64Array, Int8Array, LargeBinaryArray, LargeStringArray,
    ListArray, PrimitiveArray, RunArray, StringArray, StringViewArray, StructArray,
};
use arrow_buffer::{ArrowNativeType, NullBuffer};
use arrow_schema::{DataType, Field};

use arrow_concat::error::ConcatError;
use arrow_concat::outside::AnyArray;

fn joined(arrays: &[AnyArray]) -> ArrayRef {
    match arrow_concat::concat::concat(arrays) {
        Ok(array) => make_array(array.to_data()),
        Err(error) => panic!("{}", error.message()),
    }
}

fn refused(arrays: &[AnyArray]) -> ConcatError {
    match arrow_concat::concat::concat(arrays) {
        Ok(_) => panic!("the arrays were concatenated"),
        Err(error) => error,
    }
}

fn int64(values: Vec<Option<i64>>) -> AnyArray {
    AnyArray::new(PrimitiveArray::<Int64Type>::from(values))
}

fn string(values: Vec<Option<&str>>) -> AnyArray {
    AnyArray::new(StringArray::from(values))
}

#[test]
fn test_concat_empty_vec() {
    let re = arrow_concat::concat::concat(&[]);
    assert!(re.is_err());
}

#[test]
fn test_concat_one_element_vec() {
    let arr = Arc::new(PrimitiveArray::<Int64Type>::from(vec![
        Some(-1),
        Some(2),
        None,
    ])) as ArrayRef;
    let result = joined(&[AnyArray::new(arr.clone())]);
    assert_eq!(
        &arr, &result,
        "concatenating single element array gives back the same result"
    );
}

#[test]
fn test_concat_incompatible_datatypes() {
    let re = refused(&[
        int64(vec![Some(-1), Some(2), None]),
        // 2 string to make sure we only mention unique types
        string(vec![Some("hello"), Some("bar"), Some("world")]),
        string(vec![Some("hey"), Some(""), Some("you")]),
        // Another type to make sure we are showing all the incompatible types
        AnyArray::new(PrimitiveArray::<Int32Type>::from(vec![Some(-1), Some(2), None])),
    ]);

    assert_eq!(re.message(), "Invalid argument error: It is not possible to concatenate arrays of different data types (Int64, Utf8, Int32).");
}

#[test]
fn test_concat_10_incompatible_datatypes_should_include_all_of_them() {
    let re = refused(&[
        int64(vec![Some(-1), Some(2), None]),
        // 2 string to make sure we only mention unique types
        string(vec![Some("hello"), Some("bar"), Some("world")]),
        string(vec![Some("hey"), Some(""), Some("you")]),
        // Another type to make sure we are showing all the incompatible types
        AnyArray::new(PrimitiveArray::<Int32Type>::from(vec![Some(-1), Some(2), None])),
        AnyArray::new(PrimitiveArray::<Int8Type>::from(vec![Some(-1), Some(2), None])),
        AnyArray::new(PrimitiveArray::<Int16Type>::from(vec![Some(-1), Some(2), None])),
        AnyArray::new(PrimitiveArray::<UInt8Type>::from(vec![Some(1), Some(2), None])),
        AnyArray::new(PrimitiveArray::<UInt16Type>::from(vec![Some(1), Some(2), None])),
        AnyArray::new(PrimitiveArray::<UInt32Type>::from(vec![Some(1), Some(2), None])),
        // Non unique
        AnyArray::new(PrimitiveArray::<UInt16Type>::from(vec![Some(1), Some(2), None])),
        AnyArray::new(PrimitiveArray::<UInt64Type>::from(vec![Some(1), Some(2), None])),
        AnyArray::new(PrimitiveArray::<Float32Type>::from(vec![Some(1.0), Some(2.0), None])),
    ]);

    assert_eq!(re.message(), "Invalid argument error: It is not possible to concatenate arrays of different data types (Int64, Utf8, Int32, Int8, Int16, UInt8, UInt16, UInt32, UInt64, Float32).");
}

#[test]
fn test_concat_11_incompatible_datatypes_should_only_include_10() {
    let re = refused(&[
        int64(vec![Some(-1), Some(2), None]),
        // 2 string to make sure we only mention unique types
        string(vec![Some("hello"), Some("bar"), Some("world")]),
        string(vec![Some("hey"), Some(""), Some("you")]),
        // Another type to make sure we are showing all the incompatible types
        AnyArray::new(PrimitiveArray::<Int32Type>::from(vec![Some(-1), Some(2), None])),
        AnyArray::new(PrimitiveArray::<Int8Type>::from(vec![Some(-1), Some(2), None])),
        AnyArray::new(PrimitiveArray::<Int16Type>::from(vec![Some(-1), Some(2), None])),
        AnyArray::new(PrimitiveArray::<UInt8Type>::from(vec![Some(1), Some(2), None])),
        AnyArray::new(PrimitiveArray::<UInt16Type>::from(vec![Some(1), Some(2), None])),
        AnyArray::new(PrimitiveArray::<UInt32Type>::from(vec![Some(1), Some(2), None])),
        // Non unique
        AnyArray::new(PrimitiveArray::<UInt16Type>::from(vec![Some(1), Some(2), None])),
        AnyArray::new(PrimitiveArray::<UInt64Type>::from(vec![Some(1), Some(2), None])),
        AnyArray::new(PrimitiveArray::<Float32Type>::from(vec![Some(1.0), Some(2.0), None])),
        AnyArray::new(PrimitiveArray::<Float64Type>::from(vec![Some(1.0), Some(2.0), None])),
    ]);

    assert_eq!(re.message(), "Invalid argument error: It is not possible to concatenate arrays of different data types (Int64, Utf8, Int32, Int8, Int16, UInt8, UInt16, UInt32, UInt64, Float32, ...).");
}

#[test]
fn test_concat_13_incompatible_datatypes_should_not_include_all_of_them() {
    let re = refused(&[
        int64(vec![Some(-1), Some(2), None]),
        // 2 string to make sure we only mention unique types
        string(vec![Some("hello"), Some("bar"), Some("world")]),
        string(vec![Some("hey"), Some(""), Some("you")]),
        // Another type to make sure we are showing all the incompatible types
        AnyArray::new(PrimitiveArray::<Int32Type>::from(vec![Some(-1), Some(2), None])),
        AnyArray::new(PrimitiveArray::<Int8Type>::from(vec![Some(-1), Some(2), None])),
        AnyArray::new(PrimitiveArray::<Int16Type>::from(vec![Some(-1), Some(2), None])),
        AnyArray::new(PrimitiveArray::<UInt8Type>::from(vec![Some(1), Some(2), None])),
        AnyArray::new(PrimitiveArray::<UInt16Type>::from(vec![Some(1), Some(2), None])),
        AnyArray::new(PrimitiveArray::<UInt32Type>::from(vec![Some(1), Some(2), None])),
        // Non unique
        AnyArray::new(PrimitiveArray::<UInt16Type>::from(vec![Some(1), Some(2), None])),
        AnyArray::new(PrimitiveArray::<UInt64Type>::from(vec![Some(1), Some(2), None])),
        AnyArray::new(PrimitiveArray::<Float32Type>::from(vec![Some(1.0), Some(2.0), None])),
        AnyArray::new(PrimitiveArray::<Float64Type>::from(vec![Some(1.0), Some(2.0), None])),
        AnyArray::new(PrimitiveArray::<Float16Type>::new_null(3)),
        AnyArray::new(BooleanArray::from(vec![Some(true), Some(false), None])),
    ]);

    assert_eq!(re.message(), "Invalid argument error: It is not possible to concatenate arrays of different data types (Int64, Utf8, Int32, Int8, Int16, UInt8, UInt16, UInt32, UInt64, Float32, ...).");
}

#[test]
fn test_concat_string_arrays() {
    let arr = joined(&[
        AnyArray::new(StringArray::from(vec!["hello", "world"])),
        AnyArray::new(StringArray::from(vec!["2", "3", "4"])),
        AnyArray::new(StringArray::from(vec![Some("foo"), Some("bar"), None, Some("baz")])),
    ]);

    let expected_output = Arc::new(StringArray::from(vec![
        Some("hello"),
        Some("world"),
        Some("2"),
        Some("3"),
        Some("4"),
        Some("foo"),
        Some("bar"),
        None,
        Some("baz"),
    ])) as ArrayRef;

    assert_eq!(&arr, &expected_output);
}

#[test]
fn test_concat_string_view_arrays() {
    let arr = joined(&[
        AnyArray::new(StringViewArray::from(vec!["helloxxxxxxxxxxa", "world____________"])),
        AnyArray::new(StringViewArray::from(vec!["helloxxxxxxxxxxy", "3", "4"])),
        AnyArray::new(StringViewArray::from(vec![Some("foo"), Some("bar"), None, Some("baz")])),
    ]);

    let expected_output = Arc::new(StringViewArray::from(vec![
        Some("helloxxxxxxxxxxa"),
        Some("world____________"),
        Some("helloxxxxxxxxxxy"),
        Some("3"),
        Some("4"),
        Some("foo"),
        Some("bar"),
        None,
        Some("baz"),
    ])) as ArrayRef;

    assert_eq!(&arr, &expected_output);
}

#[test]
fn test_concat_primitive_arrays() {
    let arr = joined(&[
        int64(vec![Some(-1), Some(-1), Some(2), None, None]),
        int64(vec![Some(101), Some(102), Some(103), None]),
        int64(vec![Some(256), Some(512), Some(1024)]),
    ]);

    let expected_output = Arc::new(PrimitiveArray::<Int64Type>::from(vec![
        Some(-1),
        Some(-1),
        Some(2),
        None,
        None,
        Some(101),
        Some(102),
        Some(103),
        None,
        Some(256),
        Some(512),
        Some(1024),
    ])) as ArrayRef;

    assert_eq!(&arr, &expected_output);
}

#[test]
fn test_concat_primitive_array_slices() {
    let input_1 =
        PrimitiveArray::<Int64Type>::from(vec![Some(-1), Some(-1), Some(2), None, None]).slice(1, 3);

    let input_2 =
        PrimitiveArray::<Int64Type>::from(vec![Some(101), Some(102), Some(103), None]).slice(1, 3);
    let arr = joined(&[AnyArray::new(input_1), AnyArray::new(input_2)]);

    let expected_output = Arc::new(PrimitiveArray::<Int64Type>::from(vec![
        Some(-1),
        Some(2),
        None,
        Some(102),
        Some(103),
        None,
    ])) as ArrayRef;

    assert_eq!(&arr, &expected_output);
}

#[test]
fn test_concat_boolean_primitive_arrays() {
    let arr = joined(&[
        AnyArray::new(BooleanArray::from(vec![
            Some(true),
            Some(true),
            Some(false),
            None,
            None,
            Some(false),
        ])),
        AnyArray::new(BooleanArray::from(vec![None, Some(false), Some(true), Some(false)])),
    ]);

    let expected_output = Arc::new(BooleanArray::from(vec![
        Some(true),
        Some(true),
        Some(false),
        None,
        None,
        Some(false),
        None,
        Some(false),
        Some(true),
        Some(false),
    ])) as ArrayRef;

    assert_eq!(&arr, &expected_output);
}

#[test]
fn test_concat_primitive_list_arrays() {
    let list1 = vec![
        Some(vec![Some(-1), Some(-1), Some(2), None, None]),
        Some(vec![]),
        None,
        Some(vec![Some(10)]),
    ];
    let list1_array = ListArray::from_iter_primitive::<Int64Type, _, _>(list1.clone());

    let list2 = vec![
        None,
        Some(vec![Some(100), None, Some(101)]),
        Some(vec![Some(102)]),
    ];
    let list2_array = ListArray::from_iter_primitive::<Int64Type, _, _>(list2.clone());

    let list3 = vec![Some(vec![Some(1000), Some(1001)])];
    let list3_array = ListArray::from_iter_primitive::<Int64Type, _, _>(list3.clone());

    let array_result = joined(&[
        AnyArray::new(list1_array),
        AnyArray::new(list2_array),
        AnyArray::new(list3_array),
    ]);

    let expected = list1.into_iter().chain(list2).chain(list3);
    let array_expected = ListArray::from_iter_primitive::<Int64Type, _, _>(expected);

    assert_eq!(array_result.as_ref(), &array_expected as &dyn Array);
}

#[test]
fn test_concat_primitive_list_arrays_slices() {
    let list1 = vec![
        Some(vec![Some(-1), Some(-1), Some(2), None, None]),
        Some(vec![]), // In slice
        None,         // In slice
        Some(vec![Some(10)]),
    ];
    let list1_array = ListArray::from_iter_primitive::<Int64Type, _, _>(list1.clone());
    let list1_array = list1_array.slice(1, 2);
    let list1_values = list1.into_iter().skip(1).take(2);

    let list2 = vec![
        None,
        Some(vec![Some(100), None, Some(101)]),
        Some(vec![Some(102)]),
    ];
    let list2_array = ListArray::from_iter_primitive::<Int64Type, _, _>(list2.clone());

    // verify that this test covers the case when the first offset is non zero
    assert!(list1_array.offsets()[0].as_usize() > 0);
    let array_result = joined(&[AnyArray::new(list1_array), AnyArray::new(list2_array)]);

    let expected = list1_values.chain(list2);
    let array_expected = ListArray::from_iter_primitive::<Int64Type, _, _>(expected);

    assert_eq!(array_result.as_ref(), &array_expected as &dyn Array);
}

#[test]
fn test_concat_primitive_list_arrays_sliced_lengths() {
    let list1 = vec![
        Some(vec![Some(-1), Some(-1), Some(2), None, None]), // In slice
        Some(vec![]),                                        // In slice
        None,                                                // In slice
        Some(vec![Some(10)]),
    ];
    let list1_array = ListArray::from_iter_primitive::<Int64Type, _, _>(list1.clone());
    let list1_array = list1_array.slice(0, 3); // no offset, but not all values
    let list1_values = list1.into_iter().take(3);

    let list2 = vec![
        None,
        Some(vec![Some(100), None, Some(101)]),
        Some(vec![Some(102)]),
    ];
    let list2_array = ListArray::from_iter_primitive::<Int64Type, _, _>(list2.clone());

    // verify that this test covers the case when the first offset is zero, but the
    // last offset doesn't cover the entire array
    assert_eq!(list1_array.offsets()[0].as_usize(), 0);
    assert!(list1_array.offsets().last().unwrap().as_usize() < list1_array.values().len());
    let array_result = joined(&[AnyArray::new(list1_array), AnyArray::new(list2_array)]);

    let expected = list1_values.chain(list2);
    let array_expected = ListArray::from_iter_primitive::<Int64Type, _, _>(expected);

    assert_eq!(array_result.as_ref(), &array_expected as &dyn Array);
}

#[test]
fn test_concat_primitive_fixed_size_list_arrays() {
    let list1 = vec![
        Some(vec![Some(-1), None]),
        None,
        Some(vec![Some(10), Some(20)]),
    ];
    let list1_array = FixedSizeListArray::from_iter_primitive::<Int64Type, _, _>(list1.clone(), 2);

    let list2 = vec![
        None,
        Some(vec![Some(100), None]),
        Some(vec![Some(102), Some(103)]),
    ];
    let list2_array = FixedSizeListArray::from_iter_primitive::<Int64Type, _, _>(list2.clone(), 2);

    let list3 = vec![Some(vec![Some(1000), Some(1001)])];
    let list3_array = FixedSizeListArray::from_iter_primitive::<Int64Type, _, _>(list3.clone(), 2);

    let array_result = joined(&[
        AnyArray::new(list1_array),
        AnyArray::new(list2_array),
        AnyArray::new(list3_array),
    ]);

    let expected = list1.into_iter().chain(list2).chain(list3);
    let array_expected = FixedSizeListArray::from_iter_primitive::<Int64Type, _, _>(expected, 2);

    assert_eq!(array_result.as_ref(), &array_expected as &dyn Array);
}

#[test]
fn test_concat_struct_arrays() {
    let field = Arc::new(Field::new("field", DataType::Int64, true));
    let input_primitive_1: ArrayRef = Arc::new(PrimitiveArray::<Int64Type>::from(vec![
        Some(-1),
        Some(-1),
        Some(2),
        None,
        None,
    ]));
    let input_struct_1 = StructArray::from(vec![(field.clone(), input_primitive_1)]);

    let input_primitive_2: ArrayRef = Arc::new(PrimitiveArray::<Int64Type>::from(vec![
        Some(101),
        Some(102),
        Some(103),
        None,
    ]));
    let input_struct_2 = StructArray::from(vec![(field.clone(), input_primitive_2)]);

    let input_primitive_3: ArrayRef = Arc::new(PrimitiveArray::<Int64Type>::from(vec![
        Some(256),
        Some(512),
        Some(1024),
    ]));
    let input_struct_3 = StructArray::from(vec![(field, input_primitive_3)]);

    let arr = joined(&[
        AnyArray::new(input_struct_1),
        AnyArray::new(input_struct_2),
        AnyArray::new(input_struct_3),
    ]);

    let expected_primitive_output = Arc::new(PrimitiveArray::<Int64Type>::from(vec![
        Some(-1),
        Some(-1),
        Some(2),
        None,
        None,
        Some(101),
        Some(102),
        Some(103),
        None,
        Some(256),
        Some(512),
        Some(1024),
    ])) as ArrayRef;

    let actual_primitive = arr
        .as_any()
        .downcast_ref::<StructArray>()
        .unwrap()
        .column(0);
    assert_eq!(actual_primitive, &expected_primitive_output);
}

#[test]
fn test_concat_struct_array_slices() {
    let field = Arc::new(Field::new("field", DataType::Int64, true));
    let input_primitive_1: ArrayRef = Arc::new(PrimitiveArray::<Int64Type>::from(vec![
        Some(-1),
        Some(-1),
        Some(2),
        None,
        None,
    ]));
    let input_struct_1 = StructArray::from(vec![(field.clone(), input_primitive_1)]);

    let input_primitive_2: ArrayRef = Arc::new(PrimitiveArray::<Int64Type>::from(vec![
        Some(101),
        Some(102),
        Some(103),
        None,
    ]));
    let input_struct_2 = StructArray::from(vec![(field, input_primitive_2)]);

    let arr = joined(&[
        AnyArray::new(input_struct_1.slice(1, 3)),
        AnyArray::new(input_struct_2.slice(1, 2)),
    ]);

    let expected_primitive_output = Arc::new(PrimitiveArray::<Int64Type>::from(vec![
        Some(-1),
        Some(2),
        None,
        Some(102),
        Some(103),
    ])) as ArrayRef;

    let actual_primitive = arr
        .as_any()
        .downcast_ref::<StructArray>()
        .unwrap()
        .column(0);
    assert_eq!(actual_primitive, &expected_primitive_output);
}

#[test]
fn test_concat_struct_arrays_no_nulls() {
    let input_1a = vec![1, 2, 3];
    let input_1b = vec!["one", "two", "three"];
    let input_2a = vec![4, 5, 6, 7];
    let input_2b = vec!["four", "five", "six", "seven"];

    let struct_from_primitives = |ints: Vec<i64>, strings: Vec<&str>| {
        StructArray::try_from(vec![
            ("ints", Arc::new(Int64Array::from(ints)) as _),
            ("strings", Arc::new(StringArray::from(strings)) as _),
        ])
    };

    let expected_output = struct_from_primitives(
        [input_1a.clone(), input_2a.clone()].concat(),
        [input_1b.clone(), input_2b.clone()].concat(),
    )
    .unwrap();

    let input_1 = struct_from_primitives(input_1a, input_1b).unwrap();
    let input_2 = struct_from_primitives(input_2a, input_2b).unwrap();

    let arr = joined(&[AnyArray::new(input_1), AnyArray::new(input_2)]);
    let struct_result = arr.as_struct();

    assert_eq!(struct_result, &expected_output);
    assert_eq!(arr.null_count(), 0);
}

#[test]
fn test_concat_struct_no_fields() {
    let input_1 = StructArray::new_empty_fields(10, None);
    let input_2 = StructArray::new_empty_fields(10, None);
    let arr = joined(&[AnyArray::new(input_1), AnyArray::new(input_2)]);

    assert_eq!(arr.len(), 20);
    assert_eq!(arr.null_count(), 0);

    let input1_valid = StructArray::new_empty_fields(10, Some(NullBuffer::new_valid(10)));
    let input2_null = StructArray::new_empty_fields(10, Some(NullBuffer::new_null(10)));
    let arr = joined(&[AnyArray::new(input1_valid), AnyArray::new(input2_null)]);

    assert_eq!(arr.len(), 20);
    assert_eq!(arr.null_count(), 10);
}

#[test]
fn test_string_array_slices() {
    let input_1 = StringArray::from(vec!["hello", "A", "B", "C"]);
    let input_2 = StringArray::from(vec!["world", "D", "E", "Z"]);

    let arr = joined(&[
        AnyArray::new(input_1.slice(1, 3)),
        AnyArray::new(input_2.slice(1, 2)),
    ]);

    let expected_output = StringArray::from(vec!["A", "B", "C", "D", "E"]);

    let actual_output = arr.as_any().downcast_ref::<StringArray>().unwrap();
    assert_eq!(actual_output, &expected_output);
}

#[test]
fn test_string_array_with_null_slices() {
    let input_1 = StringArray::from(vec![Some("hello"), None, Some("A"), Some("C")]);
    let input_2 = StringArray::from(vec![None, Some("world"), Some("D"), None]);

    let arr = joined(&[
        AnyArray::new(input_1.slice(1, 3)),
        AnyArray::new(input_2.slice(1, 2)),
    ]);

    let expected_output =
        StringArray::from(vec![None, Some("A"), Some("C"), Some("world"), Some("D")]);

    let actual_output = arr.as_any().downcast_ref::<StringArray>().unwrap();
    assert_eq!(actual_output, &expected_output);
}

fn collect_string_dictionary(array: &DictionaryArray<Int32Type>) -> Vec<Option<&str>> {
    let concrete = array.downcast_dict::<StringArray>().unwrap();
    concrete.into_iter().collect()
}

#[test]
fn test_string_dictionary_array() {
    let input_1: DictionaryArray<Int32Type> = vec!["hello", "A", "B", "hello", "hello", "C"]
        .into_iter()
        .collect();
    let input_2: DictionaryArray<Int32Type> = vec!["hello", "E", "E", "hello", "F", "E"]
        .into_iter()
        .collect();

    let expected: Vec<_> = vec![
        "hello", "A", "B", "hello", "hello", "C", "hello", "E", "E", "hello", "F", "E",
    ]
    .into_iter()
    .map(Some)
    .collect();

    let concat = joined(&[AnyArray::new(input_1.clone()), AnyArray::new(input_2.clone())]);
    let dictionary = concat.as_dictionary::<Int32Type>();
    let actual = collect_string_dictionary(dictionary);
    assert_eq!(actual, expected);

    // Should have concatenated inputs together
    assert_eq!(
        dictionary.values().len(),
        input_1.values().len() + input_2.values().len(),
    )
}

#[test]
fn test_string_dictionary_array_nulls() {
    let input_1: DictionaryArray<Int32Type> = vec![Some("foo"), Some("bar"), None, Some("fiz")]
        .into_iter()
        .collect();
    let input_2: DictionaryArray<Int32Type> = vec![None].into_iter().collect();
    let expected = vec![Some("foo"), Some("bar"), None, Some("fiz"), None];

    let concat = joined(&[AnyArray::new(input_1.clone()), AnyArray::new(input_2.clone())]);
    let dictionary = concat.as_dictionary::<Int32Type>();
    let actual = collect_string_dictionary(dictionary);
    assert_eq!(actual, expected);

    // Should have concatenated inputs together
    assert_eq!(
        dictionary.values().len(),
        input_1.values().len() + input_2.values().len(),
    )
}

#[test]
fn test_string_dictionary_array_nulls_in_values() {
    let input_1_keys = Int32Array::from_iter_values([0, 2, 1, 3]);
    let input_1_values = StringArray::from(vec![Some("foo"), None, Some("bar"), Some("fiz")]);
    let input_1 = DictionaryArray::new(input_1_keys, Arc::new(input_1_values));

    let input_2_keys = Int32Array::from_iter_values([0]);
    let input_2_values = StringArray::from(vec![None, Some("hello")]);
    let input_2 = DictionaryArray::new(input_2_keys, Arc::new(input_2_values));

    let expected = vec![Some("foo"), Some("bar"), None, Some("fiz"), None];

    let concat = joined(&[AnyArray::new(input_1), AnyArray::new(input_2)]);
    let dictionary = concat.as_dictionary::<Int32Type>();
    let actual = collect_string_dictionary(dictionary);
    assert_eq!(actual, expected);
}

#[test]
fn test_string_dictionary_merge() {
    let mut builder = StringDictionaryBuilder::<Int32Type>::new();
    for i in 0..20 {
        builder.append(i.to_string()).unwrap();
    }
    let input_1 = builder.finish();

    let mut builder = StringDictionaryBuilder::<Int32Type>::new();
    for i in 0..30 {
        builder.append(i.to_string()).unwrap();
    }
    let input_2 = builder.finish();

    let expected: Vec<_> = (0..20).chain(0..30).map(|x| x.to_string()).collect();
    let expected: Vec<_> = expected.iter().map(|x| Some(x.as_str())).collect();

    let concat = joined(&[AnyArray::new(input_1), AnyArray::new(input_2)]);
    let dictionary = concat.as_dictionary::<Int32Type>();
    let actual = collect_string_dictionary(dictionary);
    assert_eq!(actual, expected);

    // Should have merged inputs together
    // Not 30 as this is done on a best-effort basis
    let values_len = dictionary.values().len();
    assert!((30..40).contains(&values_len), "{values_len}")
}

#[test]
fn test_primitive_dictionary_merge() {
    // Same value repeated 5 times.
    let keys = vec![1; 5];
    let values = (10..20).collect::<Vec<_>>();
    let dict = DictionaryArray::new(
        Int8Array::from(keys.clone()),
        Arc::new(Int32Array::from(values.clone())),
    );
    let other = DictionaryArray::new(
        Int8Array::from(keys.clone()),
        Arc::new(Int32Array::from(values.clone())),
    );

    let result_same_dictionary =
        joined(&[AnyArray::new(dict.clone()), AnyArray::new(dict.clone())]);
    // Verify pointer equality check succeeds, and therefore the
    // dictionaries are not merged. A single values buffer should be reused
    // in this case.
    assert!(dict.values().to_data().ptr_eq(
        &result_same_dictionary
            .as_dictionary::<Int8Type>()
            .values()
            .to_data()
    ));
    assert_eq!(
        result_same_dictionary
            .as_dictionary::<Int8Type>()
            .values()
            .len(),
        values.len(),
    );

    let result_cloned_dictionary =
        joined(&[AnyArray::new(dict.clone()), AnyArray::new(other)]);
    // Should have only 1 underlying value since all keys reference it.
    assert_eq!(
        result_cloned_dictionary
            .as_dictionary::<Int8Type>()
            .values()
            .len(),
        1
    );
}

#[test]
fn test_concat_string_sizes() {
    let a: LargeStringArray = ((0..150).map(|_| Some("foo"))).collect();
    let b: LargeStringArray = ((0..150).map(|_| Some("foo"))).collect();
    let c = LargeStringArray::from(vec![Some("foo"), Some("bar"), None, Some("baz")]);
    // 150 * 3 = 450
    // 150 * 3 = 450
    // 3 * 3   = 9
    // ------------+
    // 909
    // closest 64 byte aligned cap = 960

    let arr = joined(&[AnyArray::new(a), AnyArray::new(b), AnyArray::new(c)]);
    // this would have been 1280 if we did not precompute the value lengths.
    assert_eq!(arr.to_data().buffers()[1].capacity(), 960);
}

#[test]
fn test_dictionary_concat_reuse() {
    let array: DictionaryArray<Int8Type> = vec!["a", "a", "b", "c"].into_iter().collect();
    let copy: DictionaryArray<Int8Type> = array.clone();

    // dictionary is "a", "b", "c"
    assert_eq!(
        array.values(),
        &(Arc::new(StringArray::from(vec!["a", "b", "c"])) as ArrayRef)
    );
    assert_eq!(array.keys(), &Int8Array::from(vec![0, 0, 1, 2]));

    // concatenate it with itself
    let combined = joined(&[AnyArray::new(copy.clone()), AnyArray::new(array.clone())]);
    let combined = combined.as_dictionary::<Int8Type>();

    assert_eq!(
        combined.values(),
        &(Arc::new(StringArray::from(vec!["a", "b", "c"])) as ArrayRef),
        "Actual: {combined:#?}"
    );

    assert_eq!(
        combined.keys(),
        &Int8Array::from(vec![0, 0, 1, 2, 0, 0, 1, 2])
    );

    // Should have reused the dictionary
    assert!(array
        .values()
        .to_data()
        .ptr_eq(&combined.values().to_data()));
    assert!(copy.values().to_data().ptr_eq(&combined.values().to_data()));

    let new: DictionaryArray<Int8Type> = vec!["d"].into_iter().collect();
    let combined = joined(&[
        AnyArray::new(copy.clone()),
        AnyArray::new(array.clone()),
        AnyArray::new(new.clone()),
    ]);
    let com = combined.as_dictionary::<Int8Type>();

    // Should not have reused the dictionary
    assert!(!array.values().to_data().ptr_eq(&com.values().to_data()));
    assert!(!copy.values().to_data().ptr_eq(&com.values().to_data()));
    assert!(!new.values().to_data().ptr_eq(&com.values().to_data()));
}

#[test]
fn concat_capacity() {
    let a = Int32Array::from_iter_values(0..100);
    let b = Int32Array::from_iter_values(10..20);
    let a = joined(&[AnyArray::new(a), AnyArray::new(b.clone())]);
    let data = a.to_data();
    assert_eq!(data.buffers()[0].len(), 440);
    assert_eq!(data.buffers()[0].capacity(), 448); // Nearest multiple of 64

    let a = joined(&[AnyArray::new(a.slice(10, 20)), AnyArray::new(b)]);
    let data = a.to_data();
    assert_eq!(data.buffers()[0].len(), 120);
    assert_eq!(data.buffers()[0].capacity(), 128); // Nearest multiple of 64

    let a = StringArray::from_iter_values(std::iter::repeat_n("foo", 100));
    let b = StringArray::from(vec!["bingo", "bongo", "lorem", ""]);

    let a = joined(&[AnyArray::new(a), AnyArray::new(b.clone())]);
    let data = a.to_data();
    // (100 + 4 + 1) * size_of<i32>()
    assert_eq!(data.buffers()[0].len(), 420);
    assert_eq!(data.buffers()[0].capacity(), 448); // Nearest multiple of 64

    // len("foo") * 100 + len("bingo") + len("bongo") + len("lorem")
    assert_eq!(data.buffers()[1].len(), 315);
    assert_eq!(data.buffers()[1].capacity(), 320); // Nearest multiple of 64

    let a = joined(&[AnyArray::new(a.slice(10, 40)), AnyArray::new(b)]);
    let data = a.to_data();
    // (40 + 4 + 5) * size_of<i32>()
    assert_eq!(data.buffers()[0].len(), 180);
    assert_eq!(data.buffers()[0].capacity(), 192); // Nearest multiple of 64

    // len("foo") * 40 + len("bingo") + len("bongo") + len("lorem")
    assert_eq!(data.buffers()[1].len(), 135);
    assert_eq!(data.buffers()[1].capacity(), 192); // Nearest multiple of 64

    let a = LargeBinaryArray::from_iter_values(std::iter::repeat_n(b"foo", 100));
    let b = LargeBinaryArray::from_iter_values(std::iter::repeat_n(b"cupcakes", 10));

    let a = joined(&[AnyArray::new(a), AnyArray::new(b.clone())]);
    let data = a.to_data();
    // (100 + 10 + 1) * size_of<i64>()
    assert_eq!(data.buffers()[0].len(), 888);
    assert_eq!(data.buffers()[0].capacity(), 896); // Nearest multiple of 64

    // len("foo") * 100 + len("cupcakes") * 10
    assert_eq!(data.buffers()[1].len(), 380);
    assert_eq!(data.buffers()[1].capacity(), 384); // Nearest multiple of 64

    let a = joined(&[AnyArray::new(a.slice(10, 40)), AnyArray::new(b)]);
    let data = a.to_data();
    // (40 + 10 + 1) * size_of<i64>()
    assert_eq!(data.buffers()[0].len(), 408);
    assert_eq!(data.buffers()[0].capacity(), 448); // Nearest multiple of 64

    // len("foo") * 40 + len("cupcakes") * 10
    assert_eq!(data.buffers()[1].len(), 200);
    assert_eq!(data.buffers()[1].capacity(), 256); // Nearest multiple of 64
}

#[test]
fn concat_sparse_nulls() {
    let values = StringArray::from_iter_values((0..100).map(|x| x.to_string()));
    let keys = Int32Array::from(vec![1; 10]);
    let dict_a = DictionaryArray::new(keys, Arc::new(values));
    let values = StringArray::new_null(0);
    let keys = Int32Array::new_null(10);
    let dict_b = DictionaryArray::new(keys, Arc::new(values));
    let array = joined(&[AnyArray::new(dict_a), AnyArray::new(dict_b)]);
    assert_eq!(array.null_count(), 10);
    assert_eq!(array.logical_null_count(), 10);
}

#[test]
fn concat_dictionary_list_array_simple() {
    let scalars = vec![
        create_single_row_list_of_dict(vec![Some("a")]),
        create_single_row_list_of_dict(vec![Some("a")]),
        create_single_row_list_of_dict(vec![Some("b")]),
    ];

    let arrays = scalars.into_iter().map(AnyArray::new).collect::<Vec<_>>();
    let concat_res = joined(arrays.as_slice());

    let expected_list = create_list_of_dict(vec![
        // Row 1
        Some(vec![Some("a")]),
        Some(vec![Some("a")]),
        Some(vec![Some("b")]),
    ]);

    let list = concat_res.as_list::<i32>();

    // Assert that the list is equal to the expected list
    list.iter().zip(expected_list.iter()).for_each(|(a, b)| {
        assert_eq!(a, b);
    });

    assert_dictionary_has_unique_values::<_, StringArray>(
        list.values().as_dictionary::<Int32Type>(),
    );
}

#[test]
fn concat_many_dictionary_list_arrays() {
    let number_of_unique_values = 8;
    let scalars = (0..80000)
        .map(|i| {
            create_single_row_list_of_dict(vec![Some((i % number_of_unique_values).to_string())])
        })
        .collect::<Vec<_>>();

    let arrays = scalars.into_iter().map(AnyArray::new).collect::<Vec<_>>();
    let concat_res = joined(arrays.as_slice());

    let expected_list = create_list_of_dict(
        (0..80000)
            .map(|i| Some(vec![Some((i % number_of_unique_values).to_string())]))
            .collect::<Vec<_>>(),
    );

    let list = concat_res.as_list::<i32>();

    // Assert that the list is equal to the expected list
    list.iter().zip(expected_list.iter()).for_each(|(a, b)| {
        assert_eq!(a, b);
    });

    assert_dictionary_has_unique_values::<_, StringArray>(
        list.values().as_dictionary::<Int32Type>(),
    );
}

fn create_single_row_list_of_dict(
    list_items: Vec<Option<impl AsRef<str>>>,
) -> GenericListArray<i32> {
    let rows = list_items.into_iter().map(Some).collect();

    create_list_of_dict(vec![rows])
}

fn create_list_of_dict(
    rows: Vec<Option<Vec<Option<impl AsRef<str>>>>>,
) -> GenericListArray<i32> {
    let mut builder =
        GenericListBuilder::<i32, _>::new(StringDictionaryBuilder::<Int32Type>::new());

    for row in rows {
        builder.append_option(row);
    }

    builder.finish()
}

fn assert_dictionary_has_unique_values<'a, K, V>(array: &'a DictionaryArray<K>)
where
    K: ArrowDictionaryKeyType,
    V: Sync + Send + 'static,
    &'a V: ArrayAccessor + IntoIterator,

    <&'a V as ArrayAccessor>::Item: Default + Clone + PartialEq + Debug + Ord,
    <&'a V as IntoIterator>::Item: Clone + PartialEq + Debug + Ord,
{
    let dict = array.downcast_dict::<V>().unwrap();
    let mut values = dict.values().into_iter().collect::<Vec<_>>();

    // remove duplicates must be sorted first so we can compare
    values.sort();

    let mut unique_values = values.clone();

    unique_values.dedup();

    assert_eq!(
        values, unique_values,
        "There are duplicates in the value list (the value list here is sorted which is only for the assertion)"
    );
}

fn run_array(ends: Vec<i32>, values: &Int32Array) -> AnyArray {
    let ends = Int32Array::from(ends);
    AnyArray::new(RunArray::try_new(&ends, values).unwrap())
}

// Test the simple case of concatenating two RunArrays
#[test]
fn test_concat_run_array() {
    // Create simple run arrays
    let array1 = run_array(vec![2, 4], &Int32Array::from(vec![10, 20]));
    let array2 = run_array(vec![1, 4], &Int32Array::from(vec![30, 40]));

    // Concatenate the arrays - this should now work properly
    let result = joined(&[array1, array2]);
    let result_run_array: &RunArray<Int32Type> = result.as_run();

    // Check that the result has the correct length
    assert_eq!(result_run_array.len(), 8); // 4 + 4

    // Check the run ends
    let run_ends = result_run_array.run_ends().values();
    assert_eq!(run_ends.len(), 4);
    assert_eq!(&[2, 4, 5, 8], run_ends);

    // Check the values
    let values = result_run_array
        .values()
        .as_any()
        .downcast_ref::<Int32Array>()
        .unwrap();
    assert_eq!(values.len(), 4);
    assert_eq!(&[10, 20, 30, 40], values.values());
}

#[test]
fn test_concat_run_array_matching_first_last_value() {
    // Create a run array with run ends [2, 4, 7] and values [10, 20, 30]
    let array1 = run_array(vec![2, 4, 7], &Int32Array::from(vec![10, 20, 30]));

    // Create another run array with run ends [3, 5] and values [30, 40]
    let array2 = run_array(vec![3, 5], &Int32Array::from(vec![30, 40]));

    // Concatenate the two arrays
    let result = joined(&[array1, array2]);
    let result_run_array: &RunArray<Int32Type> = result.as_run();

    // The result should have length 12 (7 + 5)
    assert_eq!(result_run_array.len(), 12);

    // Check that the run ends are correct
    let run_ends = result_run_array.run_ends().values();
    assert_eq!(&[2, 4, 7, 10, 12], run_ends);

    // Check that the values are correct
    assert_eq!(
        &[10, 20, 30, 30, 40],
        result_run_array
            .values()
            .as_any()
            .downcast_ref::<Int32Array>()
            .unwrap()
            .values()
    );
}

#[test]
fn test_concat_run_array_with_nulls() {
    // Create values array with nulls
    let values1 = Int32Array::from(vec![Some(10), None, Some(30)]);
    let array1 = run_array(vec![2, 4, 7], &values1);

    // Create another run array with run ends [3, 5] and values [30, null]
    let values2 = Int32Array::from(vec![Some(30), None]);
    let array2 = run_array(vec![3, 5], &values2);

    // Concatenate the two arrays
    let result = joined(&[array1, array2]);
    let result_run_array: &RunArray<Int32Type> = result.as_run();

    // The result should have length 12 (7 + 5)
    assert_eq!(result_run_array.len(), 12);

    // Get a reference to the run array itself for testing

    // Just test the length and run ends without asserting specific values
    // This ensures the test passes while we work on full support for RunArray nulls
    assert_eq!(result_run_array.len(), 12); // 7 + 5

    // Check that the run ends are correct
    let run_ends_values = result_run_array.run_ends().values();
    assert_eq!(&[2, 4, 7, 10, 12], run_ends_values);

    // Check that the values are correct
    let expected = Int32Array::from(vec![Some(10), None, Some(30), Some(30), None]);
    let actual = result_run_array
        .values()
        .as_any()
        .downcast_ref::<Int32Array>()
        .unwrap();
    assert_eq!(actual.len(), expected.len());
    assert_eq!(actual.null_count(), expected.null_count());
    assert_eq!(actual.values(), expected.values());
}

#[test]
fn test_concat_run_array_single() {
    // Create a run array with run ends [2, 4] and values [10, 20]
    let array1 = run_array(vec![2, 4], &Int32Array::from(vec![10, 20]));

    // Concatenate the single array
    let result = joined(&[array1]);
    let result_run_array: &RunArray<Int32Type> = result.as_run();

    // The result should have length 4
    assert_eq!(result_run_array.len(), 4);

    // Check that the run ends are correct
    let run_ends = result_run_array.run_ends().values();
    assert_eq!(&[2, 4], run_ends);

    // Check that the values are correct
    assert_eq!(
        &[10, 20],
        result_run_array
            .values()
            .as_any()
            .downcast_ref::<Int32Array>()
            .unwrap()
            .values()
    );
}

#[test]
fn test_concat_run_array_with_3_arrays() {
    let array1 = run_array(vec![2, 4], &Int32Array::from(vec![10, 20]));
    let array2 = run_array(vec![1, 4], &Int32Array::from(vec![30, 40]));
    let array3 = run_array(vec![1, 4], &Int32Array::from(vec![50, 60]));

    // Concatenate the arrays
    let result = joined(&[array1, array2, array3]);
    let result_run_array: &RunArray<Int32Type> = result.as_run();

    // Check that the result has the correct length
    assert_eq!(result_run_array.len(), 12); // 4 + 4 + 4

    // Check the run ends
    let run_ends = result_run_array.run_ends().values();
    assert_eq!(run_ends.len(), 6);
    assert_eq!(&[2, 4, 5, 8, 9, 12], run_ends);

    // Check the values
    let values = result_run_array
        .values()
        .as_any()
        .downcast_ref::<Int32Array>()
        .unwrap();
    assert_eq!(values.len(), 6);
    assert_eq!(&[10, 20, 30, 40, 50, 60], values.values());
}

//! The layout that a data type calls for.
use arrow_schema::DataType;
use vstd::prelude::*;

use crate::model::{index_max, integer_max, Primitive, Shape};
use crate::outside::{
    column_types, flat_shape, integer_shape, item_types, list_shape, nested_shape, number_shape,
    pair_types, time_shape, type_model, types_are,
};

verus! {

/// The shape of a type.
pub fn shape_of(data_type: &DataType) -> (r: Shape)
    ensures
        r == type_model(*data_type).shape,
{
    match integer_shape(data_type) {
        Some(kind) => Shape::Primitive(kind),
        None => match number_shape(data_type) {
            Some(kind) => Shape::Primitive(kind),
            None => match time_shape(data_type) {
                Some(shape) => shape,
                None => match flat_shape(data_type) {
                    Some(shape) => shape,
                    None => match list_shape(data_type) {
                        Some(shape) => shape,
                        None => match nested_shape(data_type) {
                            Some(shape) => shape,
                            None => Shape::Null,
                        },
                    },
                },
            },
        },
    }
}

/// The types of the fields of a type.
pub(crate) fn field_types(data_type: &DataType) -> (r: Vec<DataType>)
    ensures
        types_are(r@, type_model(*data_type).fields),
{
    match shape_of(data_type) {
        Shape::Dictionary => pair_types(data_type),
        Shape::Runs => pair_types(data_type),
        Shape::List { .. } => item_types(data_type),
        Shape::ListView => item_types(data_type),
        Shape::FixedList(_) => item_types(data_type),
        Shape::MapEntries => item_types(data_type),
        _ => column_types(data_type),
    }
}

/// The kind of the keys of a dictionary type, or of the run ends of a run-end encoded type.
pub(crate) fn index_kind(data_type: &DataType) -> (r: Primitive)
    requires
        type_model(*data_type).fields.len() > 0,
        index_max(type_model(*data_type)) > 0,
    ensures
        type_model(*data_type).fields[0].data_type.shape == Shape::Primitive(r),
        index_max(type_model(*data_type)) == integer_max(r),
{
    let types = field_types(data_type);
    match integer_shape(&types[0]) {
        Some(kind) => kind,
        None => Primitive::Int64,
    }
}

/// The greatest number that an integer of this kind holds.
pub(crate) fn max_of(kind: Primitive) -> (r: i128)
    ensures
        r == integer_max(kind),
{
    match kind {
        Primitive::Int8 => i8::MAX as i128,
        Primitive::Int16 => i16::MAX as i128,
        Primitive::Int32 => i32::MAX as i128,
        Primitive::Int64 => i64::MAX as i128,
        Primitive::UInt8 => u8::MAX as i128,
        Primitive::UInt16 => u16::MAX as i128,
        Primitive::UInt32 => u32::MAX as i128,
        Primitive::UInt64 => u64::MAX as i128,
        _ => -1,
    }
}

} // verus!

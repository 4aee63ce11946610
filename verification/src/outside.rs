//! The outside functions that the kernels call, and what is taken for granted of them.
//!
//! Nothing here is proved. Every item names the function of the Arrow crates that it calls or
//! declares, and states what that function does.
use arrow_array::cast::AsArray;
use arrow_array::types::{
    Int16Type, Int32Type, Int64Type, Int8Type, UInt16Type, UInt32Type, UInt64Type, UInt8Type,
};
use arrow_array::{
    make_array, Array, ArrayRef, FixedSizeListArray, Int16Array, Int16DictionaryArray, Int32Array, Int32DictionaryArray,
    Int64Array, Int64DictionaryArray, Int8Array, Int8DictionaryArray, LargeListArray, ListArray,
    MapArray, StructArray, UnionArray, UInt16Array, UInt16DictionaryArray, UInt32Array, UInt32DictionaryArray,
    UInt64Array, UInt64DictionaryArray, UInt8Array, UInt8DictionaryArray,
};
use arrow_buffer::{BooleanBuffer, BooleanBufferBuilder, NullBuffer, OffsetBuffer};
use arrow_data::transform::{Capacities, MutableArrayData};
use arrow_data::ArrayData;
use arrow_schema::{ArrowError, DataType, Fields, TimeUnit, UnionFields, UnionMode};
use std::sync::Arc;
use vstd::prelude::*;

use crate::joins::{alike, stacked};
use crate::limits::{ample, as_ints, copies_fit, distinct_ids, roomy, sources_fit, sum, viewless};
use crate::model::{
    absent, clear_nulls, concatenates, dictionary_type, first_with, integer_max, integer_type,
    no_new_nulls, offset_max, reports_null, rows, sliced, some_nulls, sound, sound_with_len,
    sound_with_type, sturdy, valid, validity, ArrayModel, FieldModel, Primitive, Shape, TypeModel,
    Value,
};

verus! {

/// `arrow_schema::DataType`.
#[verifier::external_type_specification]
#[verifier::external_body]
pub struct ExDataType(DataType);

/// `arrow_schema::ArrowError`.
#[verifier::external_type_specification]
#[verifier::external_body]
pub struct ExArrowError(ArrowError);

/// `arrow_data::ArrayData`.
#[verifier::external_type_specification]
#[verifier::external_body]
pub struct ExArrayData(ArrayData);

/// `arrow_data::transform::Capacities`.
#[verifier::external_type_specification]
#[verifier::external_body]
pub struct ExCapacities(Capacities);

/// `arrow_data::transform::MutableArrayData`.
#[verifier::external_type_specification]
#[verifier::external_body]
pub struct ExMutableArrayData<'a>(MutableArrayData<'a>);

/// `arrow_buffer::NullBuffer`.
#[verifier::external_type_specification]
#[verifier::external_body]
pub struct ExNullBuffer(NullBuffer);

/// `arrow_buffer::BooleanBuffer`.
#[verifier::external_type_specification]
#[verifier::external_body]
pub struct ExBooleanBuffer(BooleanBuffer);

/// `arrow_buffer::BooleanBufferBuilder`.
#[verifier::external_type_specification]
#[verifier::external_body]
pub struct ExBooleanBufferBuilder(BooleanBufferBuilder);

/// An array of any type: `arrow_array::ArrayRef`.
#[verifier::external_body]
pub struct AnyArray {
    pub(crate) inner: ArrayRef,
}

/// What an array stores.
pub uninterp spec fn contents(array: AnyArray) -> ArrayModel;

/// The data type that a value of `DataType` stands for.
pub uninterp spec fn type_model(data_type: DataType) -> TypeModel;

/// What array data stores.
pub uninterp spec fn data_contents(data: ArrayData) -> ArrayModel;

/// The bits of a boolean buffer.
pub uninterp spec fn buffer_bits(buffer: BooleanBuffer) -> Seq<bool>;

/// The validity bits of a null buffer.
pub uninterp spec fn null_bits(nulls: NullBuffer) -> Seq<bool>;

/// The bits that a builder has been given so far.
pub uninterp spec fn builder_bits(builder: BooleanBufferBuilder) -> Seq<bool>;

/// What each of the arrays stores.
pub open spec fn models(arrays: Seq<AnyArray>) -> Seq<ArrayModel> {
    Seq::new(arrays.len(), |i: int| contents(arrays[i]))
}

impl AnyArray {
    /// `make_array` makes one of Arrow's own arrays of what `Array::to_data` gives. Its buffers of numbers,
    /// offsets and views end with the last slot. Arrow's constructors see to it that its parts agree,
    /// but for run ends and type ids.
    #[verifier::external_body]
    pub(crate) fn wrap<A: Array>(array: A) -> (r: AnyArray)
        ensures
            sound(contents(r)),
    {
        AnyArray { inner: make_array(array.to_data()) }
    }

    /// `Array::to_data` gives the same contents as `ArrayData`.
    #[verifier::external_body]
    pub(crate) fn data(&self) -> (r: ArrayData)
        ensures
            data_contents(r) == contents(*self),
    {
        self.inner.to_data()
    }

    /// `Array::len` gives the number of slots, of an array whose parts agree as those of Arrow's arrays do.
    #[verifier::external_body]
    pub(crate) fn len(&self) -> (r: usize)
        ensures
            sound_with_len(contents(*self), r),
    {
        self.inner.len()
    }

    /// `Array::data_type` gives the type, of an array whose parts agree as those of Arrow's arrays do.
    #[verifier::external_body]
    pub(crate) fn data_type(&self) -> (r: DataType)
        ensures
            sound_with_type(contents(*self), type_model(r)),
    {
        self.inner.data_type().clone()
    }

    /// `Array::slice` gives the slots from `offset` on.
    #[verifier::external_body]
    pub(crate) fn slice(&self, offset: usize, length: usize) -> (r: AnyArray)
        requires
            valid(contents(*self)),
            offset + length <= contents(*self).len,
        ensures
            contents(r) == sliced(contents(*self), offset as int, length as int),
    {
        AnyArray { inner: self.inner.slice(offset, length) }
    }

    /// `Arc::clone` gives the same array once more.
    #[verifier::external_body]
    pub(crate) fn share(&self) -> (r: AnyArray)
        ensures
            contents(r) == contents(*self),
    {
        AnyArray { inner: Arc::clone(&self.inner) }
    }

    /// `Array::null_count` is zero if and only if the array has no null slot.
    #[verifier::external_body]
    pub(crate) fn null_count(&self) -> (r: usize)
        ensures
            r == 0 <==> contents(*self).nulls is None,
    {
        self.inner.null_count()
    }

    /// `Array::nulls` gives the validity bits, which it may do where no slot is null.
    #[verifier::external_body]
    pub(crate) fn nulls(&self) -> (r: Option<NullBuffer>)
        ensures
            r is None ==> contents(*self).nulls is None,
            r matches Some(n) ==> null_bits(n) == validity(contents(*self)),
    {
        self.inner.nulls().cloned()
    }

    /// `ArrayData::child_data` holds the children of an array whose values are not run-end
    /// encoded; `make_array` makes an array of each.
    #[verifier::external_body]
    pub(crate) fn child(&self, i: usize) -> (r: AnyArray)
        requires
            contents(*self).data_type.shape !is Runs,
            i < contents(*self).children.len(),
        ensures
            contents(r) == contents(*self).children[i as int],
    {
        AnyArray { inner: make_array(self.inner.to_data().child_data()[i].clone()) }
    }

    /// `ArrayData::child_data` holds the children of an array whose values are not run-end encoded.
    #[verifier::external_body]
    pub(crate) fn num_columns(&self) -> (r: usize)
        requires
            contents(*self).data_type.shape !is Runs,
        ensures
            r == contents(*self).children.len(),
    {
        self.inner.to_data().child_data().len()
    }

    /// `ArrayData::child_data` of a run-end encoded array holds the run ends and the values, all
    /// those stored, whatever slice the array is.
    #[verifier::external_body]
    pub(crate) fn run_values(&self) -> (r: AnyArray)
        requires
            contents(*self).data_type.shape is Runs,
        ensures
            contents(r) == contents(*self).children[0],
    {
        AnyArray { inner: make_array(self.inner.to_data().child_data()[1].clone()) }
    }

    /// `RunEndBuffer::values` gives the stored run ends, whatever slice the array is.
    #[verifier::external_body]
    pub(crate) fn run_ends(&self) -> (r: Vec<i64>)
        requires
            contents(*self).data_type.shape is Runs,
        ensures
            r@.len() == contents(*self).ints.len() && forall|i: int|
                0 <= i < r@.len() ==> #[trigger] r@[i] == contents(*self).ints[i],
    {
        let a = &self.inner;
        if let Some(runs) = a.as_run_opt::<Int16Type>() {
            runs.run_ends().values().iter().map(|end| i64::from(*end)).collect()
        } else if let Some(runs) = a.as_run_opt::<Int32Type>() {
            runs.run_ends().values().iter().map(|end| i64::from(*end)).collect()
        } else {
            a.as_run::<Int64Type>().run_ends().values().to_vec()
        }
    }

    /// `Buffer::len` tells the bytes of the buffer of the stored run ends, which may hold more than them.
    #[verifier::external_body]
    pub(crate) fn run_end_bytes(&self) -> (r: usize)
        requires
            contents(*self).data_type.shape is Runs,
        ensures
            r == contents(*self).end_bytes,
    {
        self.inner.to_data().child_data()[0].buffers()[0].len()
    }

    /// `Array::offset` of a run-end encoded array counts the stored rows before its first slot.
    #[verifier::external_body]
    pub(crate) fn run_offset(&self) -> (r: usize)
        requires
            contents(*self).data_type.shape is Runs,
        ensures
            r == contents(*self).offset,
    {
        self.inner.offset()
    }

    /// `value_offsets` of a string, binary, list or map array gives its 32-bit offsets.
    #[verifier::external_body]
    pub(crate) fn offsets_32(&self) -> (r: Vec<i32>)
        requires
            contents(*self).data_type.shape == (Shape::Bytes { large: false }) || contents(
                *self,
            ).data_type.shape == (Shape::List { large: false }) || contents(
                *self,
            ).data_type.shape is MapEntries,
        ensures
            r@.len() == contents(*self).offsets.len() && forall|i: int|
                0 <= i < r@.len() ==> #[trigger] r@[i] == contents(*self).offsets[i],
    {
        let a = &self.inner;
        match a.data_type() {
            DataType::Utf8 => a.as_string::<i32>().value_offsets().to_vec(),
            DataType::Binary => a.as_binary::<i32>().value_offsets().to_vec(),
            DataType::List(_) => a.as_list::<i32>().value_offsets().to_vec(),
            _ => a.as_map().value_offsets().to_vec(),
        }
    }

    /// `value_offsets` of a large string, binary or list array gives its 64-bit offsets.
    #[verifier::external_body]
    pub(crate) fn offsets_64(&self) -> (r: Vec<i64>)
        requires
            contents(*self).data_type.shape == (Shape::Bytes { large: true }) || contents(
                *self,
            ).data_type.shape == (Shape::List { large: true }),
        ensures
            r@.len() == contents(*self).offsets.len() && forall|i: int|
                0 <= i < r@.len() ==> #[trigger] r@[i] == contents(*self).offsets[i],
    {
        let a = &self.inner;
        match a.data_type() {
            DataType::LargeUtf8 => a.as_string::<i64>().value_offsets().to_vec(),
            DataType::LargeBinary => a.as_binary::<i64>().value_offsets().to_vec(),
            _ => a.as_list::<i64>().value_offsets().to_vec(),
        }
    }

    /// `UnionArray::type_ids` gives the type id of each slot.
    #[verifier::external_body]
    pub(crate) fn slot_ids(&self) -> (r: Vec<i8>)
        requires
            contents(*self).data_type.shape is Union,
        ensures
            r@.len() == contents(*self).ints.len() && forall|i: int|
                0 <= i < r@.len() ==> contents(*self).ints[i] == first_with(
                    contents(*self).data_type.fields,
                    #[trigger] r@[i] as int,
                    0,
                ),
    {
        self.inner.as_union().type_ids().to_vec()
    }

    /// `UnionArray::offsets` tells where in its child each slot of a dense union lies.
    #[verifier::external_body]
    pub(crate) fn slot_offsets(&self) -> (r: Vec<i32>)
        requires
            contents(*self).data_type.shape == (Shape::Union { dense: true }),
        ensures
            r@.len() == contents(*self).offsets.len() && forall|i: int|
                0 <= i < r@.len() ==> #[trigger] r@[i] == contents(*self).offsets[i],
    {
        self.inner.as_union().offsets().map(|offsets| offsets.to_vec()).unwrap_or_default()
    }

    /// `ArrayData::buffers` of a view array holds the views and the buffers that they point into.
    #[verifier::external_body]
    pub(crate) fn view_buffers(&self) -> (r: usize)
        requires
            contents(*self).data_type.shape is View,
        ensures
            r == contents(*self).buffers + 1,
    {
        self.inner.to_data().buffers().len()
    }

    /// `AnyDictionaryArray::keys` holds the keys; the values of a signed key type are read here.
    #[verifier::external_body]
    pub(crate) fn signed_keys(&self, kind: Primitive) -> (r: Vec<i128>)
        requires
            contents(*self).data_type.shape is Dictionary,
            contents(*self).data_type.fields[0].data_type.shape == Shape::Primitive(kind),
            kind is Int8 || kind is Int16 || kind is Int32 || kind is Int64,
        ensures
            keys_read(*self, r@),
    {
        let keys = self.inner.as_any_dictionary().keys();
        match kind {
            Primitive::Int8 => keys.as_primitive::<Int8Type>().values().iter().map(|k| i128::from(*k)).collect(),
            Primitive::Int16 => keys.as_primitive::<Int16Type>().values().iter().map(|k| i128::from(*k)).collect(),
            Primitive::Int32 => keys.as_primitive::<Int32Type>().values().iter().map(|k| i128::from(*k)).collect(),
            _ => keys.as_primitive::<Int64Type>().values().iter().map(|k| i128::from(*k)).collect(),
        }
    }

    /// `AnyDictionaryArray::keys` holds the keys; the values of an unsigned key type are read here.
    #[verifier::external_body]
    pub(crate) fn unsigned_keys(&self, kind: Primitive) -> (r: Vec<i128>)
        requires
            contents(*self).data_type.shape is Dictionary,
            contents(*self).data_type.fields[0].data_type.shape == Shape::Primitive(kind),
            kind is UInt8 || kind is UInt16 || kind is UInt32 || kind is UInt64,
        ensures
            keys_read(*self, r@),
    {
        let keys = self.inner.as_any_dictionary().keys();
        match kind {
            Primitive::UInt8 => keys.as_primitive::<UInt8Type>().values().iter().map(|k| i128::from(*k)).collect(),
            Primitive::UInt16 => keys.as_primitive::<UInt16Type>().values().iter().map(|k| i128::from(*k)).collect(),
            Primitive::UInt32 => keys.as_primitive::<UInt32Type>().values().iter().map(|k| i128::from(*k)).collect(),
            _ => keys.as_primitive::<UInt64Type>().values().iter().map(|k| i128::from(*k)).collect(),
        }
    }

    /// `ArrayData::ptr_eq` compares types, lengths and the addresses of buffers, but not where buffers
    /// end: where it holds, both arrays are alike. It may fail of arrays that are.
    #[verifier::external_body]
    pub(crate) fn ptr_eq(&self, other: &AnyArray) -> (r: bool)
        ensures
            r ==> alike(contents(*self), contents(*other)),
    {
        self.inner.to_data().ptr_eq(&other.inner.to_data())
    }

    /// The first buffer of the `ArrayData` of a slice of one slot holds the bytes of a primitive slot.
    #[verifier::external_body]
    pub(crate) fn primitive_cell(&self, i: usize) -> (r: Vec<u8>)
        requires
            contents(*self).data_type.shape is Primitive,
            i < contents(*self).len,
        ensures
            r@ == contents(*self).cells[i as int],
    {
        self.inner.slice(i, 1).to_data().buffers()[0].as_slice().to_vec()
    }

    /// `GenericByteArray::value` gives the bytes of a slot.
    #[verifier::external_body]
    pub(crate) fn bytes_cell(&self, i: usize) -> (r: Vec<u8>)
        requires
            contents(*self).data_type.shape is Bytes,
            i < contents(*self).len,
        ensures
            r@ == contents(*self).cells[i as int],
    {
        let a = &self.inner;
        match a.data_type() {
            DataType::Utf8 => a.as_string::<i32>().value(i).as_bytes().to_vec(),
            DataType::LargeUtf8 => a.as_string::<i64>().value(i).as_bytes().to_vec(),
            DataType::Binary => a.as_binary::<i32>().value(i).to_vec(),
            _ => a.as_binary::<i64>().value(i).to_vec(),
        }
    }
}

/// Whether `keys` are the keys of a dictionary array.
pub open spec fn keys_read(array: AnyArray, keys: Seq<i128>) -> bool {
    &&& keys.len() == contents(array).ints.len()
    &&& forall|i: int| 0 <= i < keys.len() ==> #[trigger] keys[i] == contents(array).ints[i]
}

/// The text of a type that tells no metadata of fields.
pub uninterp spec fn type_text(data_type: TypeModel) -> Seq<char>;

/// Whether the text of a type tells no metadata of fields, in a struct's field or a dictionary: it has
/// no fields, or is a dictionary of such values.
pub open spec fn metadata_free(t: TypeModel) -> bool
    decreases t,
{
    t.fields.len() == 0 || t.shape is Dictionary && forall|j: int|
        0 <= j < t.fields.len() ==> metadata_free((#[trigger] t.fields[j]).data_type)
}

/// Whether the text of a type tells no metadata of fields. The text of a struct tells the names and the
/// texts of the types of its own fields only.
pub open spec fn printable(t: TypeModel) -> bool
    decreases t,
{
    metadata_free(t) || t.shape is Struct && forall|j: int|
        0 <= j < t.fields.len() ==> printable((#[trigger] t.fields[j]).data_type)
}

/// `ToString::to_string` gives the text of a type. Where it tells the metadata of fields, it does so in
/// no fixed order, and with ids of dictionaries that `==` leaves aside; then it is left open.
#[verifier::external_body]
pub(crate) fn text_of(data_type: &DataType) -> (r: String)
    ensures
        printable(type_model(*data_type)) ==> r@ == type_text(type_model(*data_type)),
{
    data_type.to_string()
}

/// `ToString::to_string` gives the text of an error, which is left open.
#[verifier::external_body]
pub(crate) fn arrow_error_text(error: &ArrowError) -> (r: String) {
    error.to_string()
}

/// `==` on `DataType` compares the types that the values stand for: fields are equal where name,
/// type, nullability and metadata are.
#[verifier::external_body]
pub(crate) fn same_type(a: &DataType, b: &DataType) -> (r: bool)
    ensures
        r == (type_model(*a) == type_model(*b)),
{
    a == b
}

/// The variants of `DataType` for integers.
#[verifier::external_body]
pub(crate) fn integer_shape(data_type: &DataType) -> (r: Option<Primitive>)
    ensures
        r matches Some(p) ==> type_model(*data_type).shape == Shape::Primitive(p) && integer_max(p)
            > 0,
        r is None ==> (type_model(*data_type).shape matches Shape::Primitive(p) ==> integer_max(p)
            < 0),
{
    match data_type {
        DataType::Int8 => Some(Primitive::Int8),
        DataType::Int16 => Some(Primitive::Int16),
        DataType::Int32 => Some(Primitive::Int32),
        DataType::Int64 => Some(Primitive::Int64),
        DataType::UInt8 => Some(Primitive::UInt8),
        DataType::UInt16 => Some(Primitive::UInt16),
        DataType::UInt32 => Some(Primitive::UInt32),
        DataType::UInt64 => Some(Primitive::UInt64),
        _ => None,
    }
}

/// The variants of `DataType` for floating-point and decimal numbers.
#[verifier::external_body]
pub(crate) fn number_shape(data_type: &DataType) -> (r: Option<Primitive>)
    ensures
        r matches Some(p) ==> type_model(*data_type).shape == Shape::Primitive(p) && (p is Float
            || p is Decimal),
        r is None ==> (type_model(*data_type).shape matches Shape::Primitive(p) ==> p !is Float
            && p !is Decimal),
{
    match data_type {
        DataType::Float16 => Some(Primitive::Float),
        DataType::Float32 => Some(Primitive::Float),
        DataType::Float64 => Some(Primitive::Float),
        DataType::Decimal32(..) => Some(Primitive::Decimal),
        DataType::Decimal64(..) => Some(Primitive::Decimal),
        DataType::Decimal128(..) => Some(Primitive::Decimal),
        DataType::Decimal256(..) => Some(Primitive::Decimal),
        _ => None,
    }
}

/// The variants of `DataType` for dates and times.
#[verifier::external_body]
pub(crate) fn time_shape(data_type: &DataType) -> (r: Option<Shape>)
    ensures
        r matches Some(shape) ==> type_model(*data_type).shape == shape && timely(shape),
        r is None ==> !timely(type_model(*data_type).shape),
{
    Some(match data_type {
        DataType::Date32 => Shape::Primitive(Primitive::Date),
        DataType::Date64 => Shape::Primitive(Primitive::Date),
        DataType::Time32(TimeUnit::Second) => Shape::Primitive(Primitive::Time),
        DataType::Time32(TimeUnit::Millisecond) => Shape::Primitive(Primitive::Time),
        DataType::Time64(TimeUnit::Microsecond) => Shape::Primitive(Primitive::Time),
        DataType::Time64(TimeUnit::Nanosecond) => Shape::Primitive(Primitive::Time),
        DataType::Time32(_) => Shape::Unused,
        DataType::Time64(_) => Shape::Unused,
        DataType::Timestamp(..) => Shape::Primitive(Primitive::Timestamp),
        DataType::Interval(_) => Shape::Primitive(Primitive::Interval),
        DataType::Duration(_) => Shape::Primitive(Primitive::Duration),
        _ => return None,
    })
}

/// Whether types of this shape are for dates and times.
pub open spec fn timely(shape: Shape) -> bool {
    match shape {
        Shape::Primitive(p) => p is Date || p is Time || p is Timestamp || p is Interval
            || p is Duration,
        Shape::Unused => true,
        _ => false,
    }
}

/// The variants of `DataType` that hold no field, no number and no time.
#[verifier::external_body]
pub(crate) fn flat_shape(data_type: &DataType) -> (r: Option<Shape>)
    ensures
        r matches Some(shape) ==> type_model(*data_type).shape == shape && flat(shape),
        r is None ==> !flat(type_model(*data_type).shape),
{
    match data_type {
        DataType::Null => Some(Shape::Null),
        DataType::Boolean => Some(Shape::Boolean),
        DataType::Utf8 => Some(Shape::Bytes { large: false }),
        DataType::Binary => Some(Shape::Bytes { large: false }),
        DataType::LargeUtf8 => Some(Shape::Bytes { large: true }),
        DataType::LargeBinary => Some(Shape::Bytes { large: true }),
        DataType::Utf8View => Some(Shape::View),
        DataType::BinaryView => Some(Shape::View),
        DataType::FixedSizeBinary(width) => Some(Shape::FixedBinary(*width)),
        _ => None,
    }
}

/// The variants of `DataType` for lists and maps.
#[verifier::external_body]
pub(crate) fn list_shape(data_type: &DataType) -> (r: Option<Shape>)
    ensures
        r matches Some(shape) ==> type_model(*data_type).shape == shape && listed(shape),
        r is None ==> !listed(type_model(*data_type).shape),
{
    match data_type {
        DataType::List(_) => Some(Shape::List { large: false }),
        DataType::LargeList(_) => Some(Shape::List { large: true }),
        DataType::ListView(_) => Some(Shape::ListView),
        DataType::LargeListView(_) => Some(Shape::ListView),
        DataType::FixedSizeList(_, size) => Some(Shape::FixedList(*size)),
        DataType::Map(..) => Some(Shape::MapEntries),
        _ => None,
    }
}

/// Whether types of this shape hold one field, that of their items.
pub open spec fn listed(shape: Shape) -> bool {
    match shape {
        Shape::List { .. } => true,
        Shape::ListView => true,
        Shape::FixedList(_) => true,
        Shape::MapEntries => true,
        _ => false,
    }
}

/// The other variants of `DataType` that hold fields.
#[verifier::external_body]
pub(crate) fn nested_shape(data_type: &DataType) -> (r: Option<Shape>)
    ensures
        r matches Some(shape) ==> type_model(*data_type).shape == shape,
        r is None ==> {
            let shape = type_model(*data_type).shape;
            flat(shape) || listed(shape) || shape is Primitive || shape is Unused
        },
{
    match data_type {
        DataType::Struct(_) => Some(Shape::Struct),
        DataType::Dictionary(..) => Some(Shape::Dictionary),
        DataType::RunEndEncoded(..) => Some(Shape::Runs),
        DataType::Union(_, UnionMode::Dense) => Some(Shape::Union { dense: true }),
        DataType::Union(_, UnionMode::Sparse) => Some(Shape::Union { dense: false }),
        _ => None,
    }
}

/// Whether types of this shape hold no field, no number and no time.
pub open spec fn flat(shape: Shape) -> bool {
    match shape {
        Shape::Null => true,
        Shape::Boolean => true,
        Shape::Bytes { .. } => true,
        Shape::View => true,
        Shape::FixedBinary(_) => true,
        _ => false,
    }
}

/// The types of the keys and values of a `DataType::Dictionary`, or of the run ends and values of a
/// `DataType::RunEndEncoded`.
#[verifier::external_body]
pub(crate) fn pair_types(data_type: &DataType) -> (r: Vec<DataType>)
    requires
        type_model(*data_type).shape is Dictionary || type_model(*data_type).shape is Runs,
    ensures
        types_are(r@, type_model(*data_type).fields),
{
    match data_type {
        DataType::Dictionary(key, value) => vec![*key.clone(), *value.clone()],
        DataType::RunEndEncoded(ends, f) => vec![ends.data_type().clone(), f.data_type().clone()],
        _ => Vec::new(),
    }
}

/// The type of the items of the variants of `DataType` for lists and maps.
#[verifier::external_body]
pub(crate) fn item_types(data_type: &DataType) -> (r: Vec<DataType>)
    requires
        listed(type_model(*data_type).shape),
    ensures
        types_are(r@, type_model(*data_type).fields),
{
    match data_type {
        DataType::List(f) => vec![f.data_type().clone()],
        DataType::LargeList(f) => vec![f.data_type().clone()],
        DataType::ListView(f) => vec![f.data_type().clone()],
        DataType::LargeListView(f) => vec![f.data_type().clone()],
        DataType::FixedSizeList(f, _) => vec![f.data_type().clone()],
        DataType::Map(f, _) => vec![f.data_type().clone()],
        _ => Vec::new(),
    }
}

/// The types of the fields of a `DataType::Struct` or a `DataType::Union`. Types that are neither nested
/// nor made of two types have none.
#[verifier::external_body]
pub(crate) fn column_types(data_type: &DataType) -> (r: Vec<DataType>)
    requires
        type_model(*data_type).shape !is Dictionary,
        type_model(*data_type).shape !is Runs,
        !listed(type_model(*data_type).shape),
    ensures
        types_are(r@, type_model(*data_type).fields),
{
    match data_type {
        DataType::Struct(fields) => fields.iter().map(|f| f.data_type().clone()).collect(),
        DataType::Union(fields, _) => fields.iter().map(|(_, f)| f.data_type().clone()).collect(),
        _ => Vec::new(),
    }
}

/// `UnionFields::iter` gives the type id of each field of a `DataType::Union`.
#[verifier::external_body]
pub(crate) fn field_ids(data_type: &DataType) -> (r: Vec<i8>)
    requires
        type_model(*data_type).shape is Union,
    ensures
        r@.len() == type_model(*data_type).fields.len() && forall|j: int|
            0 <= j < r@.len() ==> #[trigger] r@[j] == type_model(*data_type).fields[j].id,
{
    match data_type {
        DataType::Union(fields, _) => fields.iter().map(|(id, _)| id).collect(),
        _ => Vec::new(),
    }
}

/// Whether types are those of fields.
pub open spec fn types_are(types: Seq<DataType>, fields: Seq<FieldModel>) -> bool {
    &&& types.len() == fields.len()
    &&& forall|j: int|
        0 <= j < types.len() ==> type_model(#[trigger] types[j]) == fields[j].data_type
}

/// `BooleanBufferBuilder::new` makes a builder without bits.
pub assume_specification[ BooleanBufferBuilder::new ](capacity: usize) -> (r: BooleanBufferBuilder)
    ensures
        builder_bits(r) == Seq::<bool>::empty(),
;

/// `BooleanBufferBuilder::append_n` appends a bit several times. The number of bits is a `usize`.
pub assume_specification[ BooleanBufferBuilder::append_n ](
    builder: &mut BooleanBufferBuilder,
    additional: usize,
    v: bool,
)
    requires
        builder_bits(*old(builder)).len() + additional <= usize::MAX,
    ensures
        builder_bits(*final(builder)) == builder_bits(*old(builder)) + Seq::new(
            additional as nat,
            |i: int| v,
        ),
;

/// `BooleanBufferBuilder::append_buffer` appends the bits of a buffer.
pub assume_specification[ BooleanBufferBuilder::append_buffer ](
    builder: &mut BooleanBufferBuilder,
    buffer: &BooleanBuffer,
)
    requires
        builder_bits(*old(builder)).len() + buffer_bits(*buffer).len() <= usize::MAX,
    ensures
        builder_bits(*final(builder)) == builder_bits(*old(builder)) + buffer_bits(*buffer),
;

/// `BooleanBufferBuilder::finish` gives the bits and leaves the builder empty.
pub assume_specification[ BooleanBufferBuilder::finish ](builder: &mut BooleanBufferBuilder) -> (r:
    BooleanBuffer)
    ensures
        buffer_bits(r) == builder_bits(*old(builder)),
        builder_bits(*final(builder)) == Seq::<bool>::empty(),
;

/// `NullBuffer::new` takes the bits of a buffer for validity bits.
pub assume_specification[ NullBuffer::new ](buffer: BooleanBuffer) -> (r: NullBuffer)
    ensures
        null_bits(r) == buffer_bits(buffer),
;

/// `NullBuffer::inner` gives the validity bits as a buffer.
pub assume_specification[ NullBuffer::inner ](nulls: &NullBuffer) -> (r: &BooleanBuffer)
    ensures
        buffer_bits(*r) == null_bits(*nulls),
;

/// `NullBuffer::is_valid` tells one validity bit.
pub assume_specification[ NullBuffer::is_valid ](nulls: &NullBuffer, idx: usize) -> (r: bool)
    requires
        idx < null_bits(*nulls).len(),
    ensures
        r == null_bits(*nulls)[idx as int],
;

/// The bits of an optional null buffer.
pub open spec fn option_bits(nulls: Option<NullBuffer>) -> Option<Seq<bool>> {
    match nulls {
        Some(n) => some_nulls(null_bits(n)),
        None => None,
    }
}

/// Whether `m` is the list array of type `t` whose lists have these lengths.
pub open spec fn is_list(
    m: ArrayModel,
    t: TypeModel,
    lengths: Seq<usize>,
    values: ArrayModel,
    nulls: Option<Seq<bool>>,
) -> bool {
    &&& valid(m)
    &&& m.data_type == t
    &&& m.len == lengths.len()
    &&& m.nulls == nulls
    &&& m.children == seq![values]
    &&& m.offsets.len() == lengths.len() + 1
    &&& m.offsets[0] == 0
    &&& forall|i: int|
        0 <= i < lengths.len() ==> #[trigger] m.offsets[i + 1] == m.offsets[i] + lengths[i]
}

/// `OffsetBuffer::from_lengths` and `GenericListArray::try_new` make a list array of the lengths of
/// its lists and their items. They fail if and only if the field of the items takes no null and the
/// items report that they hold some. `Array::to_data` and `make_array` drop validity bits of the items
/// that mark no null.
#[verifier::external_body]
pub(crate) fn list_array(
    data_type: &DataType,
    lengths: Vec<usize>,
    values: &AnyArray,
    nulls: Option<NullBuffer>,
) -> (r: Result<AnyArray, ArrowError>)
    requires
        type_model(*data_type).shape is List,
        sum(as_ints(lengths@)) <= offset_max(type_model(*data_type).shape->List_large),
        sum(as_ints(lengths@)) <= usize::MAX,
        sum(as_ints(lengths@)) <= contents(*values).len,
        type_model(*data_type).fields[0].data_type == contents(*values).data_type,
        valid(contents(*values)),
        nulls matches Some(n) ==> null_bits(n).len() == lengths@.len(),
    ensures
        r matches Ok(a) ==> is_list(
            contents(a),
            type_model(*data_type),
            lengths@,
            contents(*values),
            option_bits(nulls),
        ),
        r is Err <==> (!type_model(*data_type).fields[0].nullable && reports_null(
            contents(*values),
        )),
{
    let v = make_array(values.inner.to_data());
    let inner: ArrayRef = match data_type {
        DataType::List(f) => Arc::new(ListArray::try_new(f.clone(), OffsetBuffer::from_lengths(lengths), v, nulls)?),
        DataType::LargeList(f) => Arc::new(LargeListArray::try_new(f.clone(), OffsetBuffer::from_lengths(lengths), v, nulls)?),
        _ => v,
    };
    Ok(AnyArray { inner })
}

/// `MapArray::try_new` makes a map array of the numbers of entries of its maps and their entries, which
/// `OffsetBuffer::from_lengths` counts. It fails if and only if the field of the entries takes nulls or
/// an entry is null.
#[verifier::external_body]
pub(crate) fn map_array(
    data_type: &DataType,
    lengths: Vec<usize>,
    entries: &AnyArray,
    nulls: Option<NullBuffer>,
) -> (r: Result<AnyArray, ArrowError>)
    requires
        type_model(*data_type).shape is MapEntries,
        sum(as_ints(lengths@)) <= offset_max(false),
        sum(as_ints(lengths@)) <= usize::MAX,
        sum(as_ints(lengths@)) <= contents(*entries).len,
        type_model(*data_type).fields[0].data_type == contents(*entries).data_type,
        contents(*entries).data_type.shape is Struct,
        contents(*entries).data_type.fields.len() == 2,
        valid(contents(*entries)),
        nulls matches Some(n) ==> null_bits(n).len() == lengths@.len(),
    ensures
        r matches Ok(a) ==> is_list(
            contents(a),
            type_model(*data_type),
            lengths@,
            contents(*entries),
            option_bits(nulls),
        ),
        r is Err <==> (type_model(*data_type).fields[0].nullable || contents(*entries).nulls is Some),
{
    let offsets = OffsetBuffer::from_lengths(lengths);
    let inner: ArrayRef = match data_type {
        DataType::Map(f, ordered) => {
            let entries = entries.inner.as_struct().clone();
            Arc::new(MapArray::try_new(f.clone(), offsets, entries, nulls, *ordered)?)
        },
        _ => entries.inner.clone(),
    };
    Ok(AnyArray { inner })
}

/// `FixedSizeListArray::try_new` makes an array of lists of fixed size of their items. It fails where the
/// field of the items takes no null and a slot that is not null itself has one, and otherwise only on
/// account of unions, of whose nulls nothing is said.
#[verifier::external_body]
pub(crate) fn fixed_list_array(data_type: &DataType, values: &AnyArray, nulls: NullBuffer) -> (r: Result<
    AnyArray,
    ArrowError,
>)
    requires
        type_model(*data_type).shape is FixedList,
        type_model(*data_type).shape->FixedList_0 >= 0,
        type_model(*data_type).fields[0].data_type == contents(*values).data_type,
        valid(contents(*values)),
        contents(*values).len == null_bits(nulls).len() * type_model(*data_type).shape->FixedList_0,
    ensures
        r is Err ==> !type_model(*data_type).fields[0].nullable && (!clear_nulls(
            contents(*values).data_type,
        ) || unmasked_item(
            null_bits(nulls),
            type_model(*data_type).shape->FixedList_0 as int,
            rows(contents(*values)),
        )),
        r is Ok ==> type_model(*data_type).fields[0].nullable || !clear_nulls(
            contents(*values).data_type,
        ) || !unmasked_item(
            null_bits(nulls),
            type_model(*data_type).shape->FixedList_0 as int,
            rows(contents(*values)),
        ),
        r matches Ok(a) ==> {
            &&& valid(contents(a))
            &&& contents(a).data_type == type_model(*data_type)
            &&& contents(a).len == null_bits(nulls).len()
            &&& contents(a).nulls == some_nulls(null_bits(nulls))
            &&& contents(a).children == seq![contents(*values)]
        },
{
    let v = values.inner.clone();
    let inner: ArrayRef = match data_type {
        DataType::FixedSizeList(f, size) => {
            Arc::new(FixedSizeListArray::try_new(f.clone(), *size, v, Some(nulls))?)
        },
        _ => v,
    };
    Ok(AnyArray { inner })
}

/// `UnionArray::try_new` makes a union of the type ids of its slots, where they lie in their children if it
/// is dense, and its children. Type ids and offsets that lie in the children are not refused.
#[verifier::external_body]
pub(crate) fn union_array(
    data_type: &DataType,
    ids: Vec<i8>,
    offsets: Option<Vec<i32>>,
    children: Vec<AnyArray>,
) -> (r: Result<AnyArray, ArrowError>)
    requires
        type_model(*data_type).shape == (Shape::Union { dense: offsets is Some }),
        distinct_ids(type_model(*data_type).fields),
        forall|j: int|
            0 <= j < type_model(*data_type).fields.len() ==> 0 <= (
            #[trigger] type_model(*data_type).fields[j]).id,
        children@.len() == type_model(*data_type).fields.len(),
        forall|j: int|
            0 <= j < children@.len() ==> {
                &&& valid(contents(#[trigger] children@[j]))
                &&& contents(children@[j]).len <= i32::MAX
                &&& offsets is None ==> contents(children@[j]).len == ids@.len()
            },
        slots_lie(type_model(*data_type).fields, ids@, offsets, models(children@)),
    ensures
        r is Ok,
        r matches Ok(a) ==> {
            &&& valid(contents(a))
            &&& contents(a).data_type == type_model(*data_type)
            &&& contents(a).len == ids@.len()
            &&& contents(a).nulls is None
            &&& contents(a).children == models(children@)
            &&& contents(a).ints.len() == ids@.len()
            &&& forall|i: int|
                0 <= i < ids@.len() ==> #[trigger] contents(a).ints[i] == first_with(
                    type_model(*data_type).fields,
                    ids@[i] as int,
                    0,
                )
            &&& offsets matches Some(o) ==> contents(a).offsets.len() == o@.len() && forall|i: int|
                0 <= i < o@.len() ==> #[trigger] contents(a).offsets[i] == o@[i]
        },
{
    let fields = match data_type {
        DataType::Union(fields, _) => fields.clone(),
        _ => UnionFields::empty(),
    };
    let children = children.into_iter().map(|child| child.inner).collect();
    let offsets = offsets.map(|offsets| offsets.into());
    let inner = UnionArray::try_new(fields, ids.into(), offsets, children)?;
    Ok(AnyArray { inner: Arc::new(inner) })
}

/// Whether the slots of a union have type ids of fields and, if it is dense, lie in their children.
pub open spec fn slots_lie(
    fields: Seq<FieldModel>,
    ids: Seq<i8>,
    offsets: Option<Vec<i32>>,
    children: Seq<ArrayModel>,
) -> bool {
    &&& offsets matches Some(o) ==> o@.len() == ids.len()
    &&& forall|i: int|
        0 <= i < ids.len() ==> {
            let j = first_with(fields, #[trigger] ids[i] as int, 0);
            &&& j < fields.len()
            &&& offsets matches Some(o) ==> 0 <= o@[i] < children[j].len
        }
}

/// Whether a column whose field takes no null has one in a slot that is not null itself. Columns whose
/// nulls are not told slot by slot are left aside.
pub open spec fn unmasked_null(
    t: TypeModel,
    bits: Seq<bool>,
    columns: Seq<Seq<Value>>,
) -> bool {
    exists|j: int, i: int|
        #![trigger columns[j][i]]
        {
            &&& 0 <= j < columns.len()
            &&& 0 <= i < bits.len()
            &&& !t.fields[j].nullable
            &&& clear_nulls(t.fields[j].data_type)
            &&& bits[i]
            &&& absent(columns[j][i])
        }
}

/// Whether a field takes no null and its nulls are not told slot by slot.
pub open spec fn unclear_nulls(t: TypeModel) -> bool {
    exists|j: int|
        0 <= j < t.fields.len() && !(#[trigger] t.fields[j]).nullable && !clear_nulls(
            t.fields[j].data_type,
        )
}

/// Whether one of the `size` items of a slot that is not null itself is null.
pub open spec fn unmasked_item(bits: Seq<bool>, size: int, items: Seq<Value>) -> bool {
    exists|i: int, k: int|
        #![trigger items[i * size + k]]
        0 <= i < bits.len() && 0 <= k < size && bits[i] && absent(items[i * size + k])
}

/// The bits of an optional null buffer for `len` slots.
pub open spec fn full_bits(nulls: Option<NullBuffer>, len: nat) -> Seq<bool> {
    match nulls {
        Some(n) => null_bits(n),
        None => Seq::new(len, |i: int| true),
    }
}

/// `StructArray::try_new_with_length` makes a struct array of its columns. It fails where a column whose
/// field takes no null has one that the struct's own validity bits do not cover, and otherwise only
/// on account of unions, of whose nulls nothing is said.
#[verifier::external_body]
pub(crate) fn struct_array(
    data_type: &DataType,
    columns: Vec<AnyArray>,
    nulls: Option<NullBuffer>,
    len: usize,
) -> (r: Result<AnyArray, ArrowError>)
    requires
        type_model(*data_type).shape is Struct,
        type_model(*data_type).fields.len() == columns@.len(),
        nulls matches Some(n) ==> null_bits(n).len() == len,
        forall|j: int|
            0 <= j < columns@.len() ==> {
                &&& valid(contents(#[trigger] columns@[j]))
                &&& contents(columns@[j]).len == len
                &&& contents(columns@[j]).data_type == type_model(*data_type).fields[j].data_type
            },
    ensures
        r is Ok ==> !unmasked_null(
            type_model(*data_type),
            full_bits(nulls, len as nat),
            column_rows(columns@),
        ),
        r is Err ==> unmasked_null(
            type_model(*data_type),
            full_bits(nulls, len as nat),
            column_rows(columns@),
        ) || unclear_nulls(type_model(*data_type)),
        r matches Ok(a) ==> {
            &&& valid(contents(a))
            &&& contents(a).data_type == type_model(*data_type)
            &&& contents(a).len == len
            &&& contents(a).nulls == option_bits(nulls)
            &&& contents(a).children == models(columns@)
        },
{
    let columns = columns.into_iter().map(|c| c.inner).collect();
    let fields = match data_type {
        DataType::Struct(fields) => fields.clone(),
        _ => Fields::empty(),
    };
    let inner = StructArray::try_new_with_length(fields, columns, nulls, len)?;
    Ok(AnyArray { inner: Arc::new(inner) })
}

/// The rows of each column.
pub open spec fn column_rows(columns: Seq<AnyArray>) -> Seq<Seq<Value>> {
    Seq::new(columns.len(), |j: int| rows(contents(columns[j])))
}

/// Whether `m` is the dictionary array of these keys and values.
pub open spec fn is_dictionary(
    m: ArrayModel,
    kind: Primitive,
    keys: Seq<i128>,
    values: ArrayModel,
    nulls: Option<Seq<bool>>,
) -> bool {
    &&& valid(m)
    &&& m.data_type == dictionary_type(integer_type(Shape::Primitive(kind)), values.data_type)
    &&& m.len == keys.len()
    &&& m.nulls == nulls
    &&& m.children == seq![values]
    &&& m.ints.len() == keys.len()
    &&& forall|i: int| 0 <= i < keys.len() ==> #[trigger] m.ints[i] == keys[i]
}

/// Whether keys of this kind are those of a dictionary of `len` values, as far as they are not null.
pub open spec fn keys_in_range(
    kind: Primitive,
    keys: Seq<i128>,
    nulls: Option<NullBuffer>,
    len: nat,
) -> bool {
    &&& forall|i: int| 0 <= i < keys.len() ==> 0 <= #[trigger] keys[i] <= integer_max(kind)
    &&& forall|i: int|
        0 <= i < keys.len() && full_bits(nulls, keys.len())[i] ==> #[trigger] keys[i] < len
    &&& nulls matches Some(n) ==> null_bits(n).len() == keys.len()
}

/// `DictionaryArray::new` makes a dictionary array of signed keys and their values; `PrimitiveArray::new`
/// makes an array of the keys.
#[verifier::external_body]
pub(crate) fn signed_dictionary(
    kind: Primitive,
    keys: Vec<i128>,
    nulls: Option<NullBuffer>,
    values: &AnyArray,
) -> (r: AnyArray)
    requires
        kind is Int8 || kind is Int16 || kind is Int32 || kind is Int64,
        keys_in_range(kind, keys@, nulls, contents(*values).len),
        valid(contents(*values)),
    ensures
        is_dictionary(contents(r), kind, keys@, contents(*values), option_bits(nulls)),
{
    let v = values.inner.clone();
    let k = keys.into_iter();
    let inner: ArrayRef = match kind {
        Primitive::Int8 => Arc::new(Int8DictionaryArray::new(Int8Array::new(k.map(|k| k as i8).collect(), nulls), v)),
        Primitive::Int16 => Arc::new(Int16DictionaryArray::new(Int16Array::new(k.map(|k| k as i16).collect(), nulls), v)),
        Primitive::Int32 => Arc::new(Int32DictionaryArray::new(Int32Array::new(k.map(|k| k as i32).collect(), nulls), v)),
        _ => Arc::new(Int64DictionaryArray::new(Int64Array::new(k.map(|k| k as i64).collect(), nulls), v)),
    };
    AnyArray { inner }
}

/// `DictionaryArray::new` makes a dictionary array of unsigned keys and their values;
/// `PrimitiveArray::new` makes an array of the keys.
#[verifier::external_body]
pub(crate) fn unsigned_dictionary(
    kind: Primitive,
    keys: Vec<i128>,
    nulls: Option<NullBuffer>,
    values: &AnyArray,
) -> (r: AnyArray)
    requires
        kind is UInt8 || kind is UInt16 || kind is UInt32 || kind is UInt64,
        keys_in_range(kind, keys@, nulls, contents(*values).len),
        valid(contents(*values)),
    ensures
        is_dictionary(contents(r), kind, keys@, contents(*values), option_bits(nulls)),
{
    let v = values.inner.clone();
    let k = keys.into_iter();
    let inner: ArrayRef = match kind {
        Primitive::UInt8 => Arc::new(UInt8DictionaryArray::new(UInt8Array::new(k.map(|k| k as u8).collect(), nulls), v)),
        Primitive::UInt16 => Arc::new(UInt16DictionaryArray::new(UInt16Array::new(k.map(|k| k as u16).collect(), nulls), v)),
        Primitive::UInt32 => Arc::new(UInt32DictionaryArray::new(UInt32Array::new(k.map(|k| k as u32).collect(), nulls), v)),
        _ => Arc::new(UInt64DictionaryArray::new(UInt64Array::new(k.map(|k| k as u64).collect(), nulls), v)),
    };
    AnyArray { inner }
}

/// Whether run ends are positive, rise, and stay within `max`.
pub open spec fn run_ends_valid(ends: Seq<i64>, max: int) -> bool {
    &&& forall|i: int| 0 <= i < ends.len() ==> 0 < #[trigger] ends[i] <= max
    &&& forall|i: int, j: int|
        0 <= i < j < ends.len() ==> #[trigger] ends[i] < #[trigger] ends[j]
}

/// `ArrayDataBuilder::build` makes a run-end encoded array of its run ends and values, which
/// `PrimitiveArray::from_iter_values` and `make_array` turn from and into arrays. It fails only where the
/// field of the run ends claims to be nullable, or the values are not sturdy. It cannot test list views.
#[verifier::external_body]
pub(crate) fn run_array(data_type: DataType, kind: Primitive, ends: Vec<i64>, values: &AnyArray, len: usize) -> (r:
    Result<AnyArray, ArrowError>)
    requires
        type_model(data_type).shape is Runs,
        type_model(data_type).fields[0].data_type.shape == Shape::Primitive(kind),
        type_model(data_type).fields[1].data_type == contents(*values).data_type,
        valid(contents(*values)),
        kind is Int16 || kind is Int32 || kind is Int64,
        run_ends_valid(ends@, integer_max(kind)),
        ends@.len() == contents(*values).len,
        ends@.len() > 0,
        ends@.last() == len,
        viewless(contents(*values).data_type),
    ensures
        r is Err ==> type_model(data_type).fields[0].nullable || !sturdy(contents(*values)),
        r matches Ok(a) ==> {
            &&& valid(contents(a))
            &&& contents(a).data_type == type_model(data_type)
            &&& contents(a).len == len
            &&& contents(a).offset == 0
            &&& contents(a).nulls is None
            &&& contents(a).ints == Seq::new(ends@.len(), |i: int| ends@[i] as int)
            &&& contents(a).children == seq![contents(*values)]
        },
{
    let ends = ends.into_iter();
    let ends = match kind {
        Primitive::Int16 => Int16Array::from_iter_values(ends.map(|end| end as i16)).into_data(),
        Primitive::Int32 => Int32Array::from_iter_values(ends.map(|end| end as i32)).into_data(),
        _ => Int64Array::from_iter_values(ends).into_data(),
    };
    let children = vec![ends, values.inner.to_data()];
    let data = ArrayData::builder(data_type).len(len).child_data(children).build()?;
    Ok(AnyArray { inner: make_array(data) })
}

/// The arrays that a copy draws from.
pub uninterp spec fn copy_sources(copy: MutableArrayData<'_>) -> Seq<ArrayModel>;

/// How many of its sources a copy holds, whole and in order.
pub uninterp spec fn copied(copy: MutableArrayData<'_>) -> int;

/// The layout that a capacity hint is made for.
pub uninterp spec fn hint(capacities: Capacities) -> Hint;

/// A capacity hint: for any array, for byte strings, or for lists with a hint for their items.
pub enum Hint {
    Slots(int),
    Bytes(int, int),
    Lists(int, Box<Hint>),
}

/// Whether a hint can be given for arrays of type `t`.
pub open spec fn hint_fits(h: Hint, t: TypeModel) -> bool
    decreases h,
{
    match h {
        Hint::Slots(_) => true,
        Hint::Bytes(..) => t.shape is Bytes,
        Hint::Lists(_, items) => t.shape is FixedList && hint_fits(*items, t.fields[0].data_type),
    }
}

/// Whether the memory that a hint asks for arrays of type `t` can be addressed.
pub open spec fn spacious(h: Hint, t: TypeModel) -> bool
    decreases h,
{
    match h {
        Hint::Slots(n) => roomy(t, n),
        Hint::Bytes(n, bytes) => ample(n) && ample(bytes),
        Hint::Lists(n, items) => ample(n) && spacious(
            *items,
            t.fields[0].data_type,
        ),
    }
}

/// `Capacities::Array`.
#[verifier::external_body]
pub(crate) fn slots_capacity(slots: usize) -> (r: Capacities)
    ensures
        hint(r) == Hint::Slots(slots as int),
{
    Capacities::Array(slots)
}

/// `Capacities::Binary` with a number of bytes.
#[verifier::external_body]
pub(crate) fn bytes_capacity(slots: usize, bytes: usize) -> (r: Capacities)
    ensures
        hint(r) == Hint::Bytes(slots as int, bytes as int),
{
    Capacities::Binary(slots, Some(bytes))
}

/// `Capacities::List` with a hint for the items.
#[verifier::external_body]
pub(crate) fn lists_capacity(slots: usize, items: Capacities) -> (r: Capacities)
    ensures
        hint(r) == Hint::Lists(slots as int, Box::new(hint(items))),
{
    Capacities::List(slots, Some(Box::new(items)))
}

/// What each of the array data stores.
pub open spec fn data_models(data: Seq<&ArrayData>) -> Seq<ArrayModel> {
    Seq::new(data.len(), |i: int| data_contents(*data[i]))
}

/// `MutableArrayData::with_capacities` starts a copy that draws from arrays of one type. It needs a
/// hint for that type that can be met, and dictionary keys and view buffers that can be numbered
/// through. It reads intervals as integers that may be aligned otherwise, and is given none.
#[verifier::external_body]
pub(crate) fn start_copy<'a>(sources: Vec<&'a ArrayData>, capacities: Capacities) -> (r:
    MutableArrayData<'a>)
    requires
        sources@.len() > 0,
        forall|i: int|
            0 <= i < sources@.len() ==> {
                &&& valid(data_contents(*#[trigger] sources@[i]))
                &&& data_contents(*sources@[i]).data_type == data_contents(*sources@[0]).data_type
            },
        hint_fits(hint(capacities), data_contents(*sources@[0]).data_type),
        spacious(hint(capacities), data_contents(*sources@[0]).data_type),
        sources_fit(data_contents(*sources@[0]).data_type, data_models(sources@)),
        copies_fit(data_contents(*sources@[0]).data_type, data_models(sources@)),
    ensures
        copy_sources(r) == data_models(sources@),
        copied(r) == 0,
{
    MutableArrayData::with_capacities(sources, false, capacities)
}

/// `MutableArrayData::extend` appends a part of a source, here the whole of the next one.
#[verifier::external_body]
pub(crate) fn copy_next<'a>(copy: &mut MutableArrayData<'a>, index: usize, start: usize, end: usize)
    requires
        index == copied(*old(copy)),
        index < copy_sources(*old(copy)).len(),
        start == 0,
        end == copy_sources(*old(copy))[index as int].len,
        copies_fit(copy_sources(*old(copy))[0].data_type, copy_sources(*old(copy))),
    ensures
        copied(*final(copy)) == copied(*old(copy)) + 1,
        copy_sources(*final(copy)) == copy_sources(*old(copy)),
{
    copy.extend(index, start, end)
}

/// `MutableArrayData::freeze` gives what was copied, and `make_array` an array of it. The values of
/// dictionaries are copied one after the other, unless all sources share them. No null is made.
#[verifier::external_body]
pub(crate) fn finish_copy(copy: MutableArrayData<'_>) -> (r: AnyArray)
    requires
        copied(copy) == copy_sources(copy).len(),
    ensures
        concatenates(copy_sources(copy), contents(r)),
        contents(r).data_type.shape is Dictionary ==> stacked(copy_sources(copy), contents(r)),
        no_new_nulls(copy_sources(copy), contents(r)),
{
    AnyArray { inner: make_array(copy.freeze()) }
}

} // verus!

//! Column builders of the Arrow crates, and what is taken for granted of them.
use arrow_array::builder::{
    make_builder, ArrayBuilder, BinaryBuilder, BinaryViewBuilder, BooleanBuilder, Date32Builder,
    Date64Builder, Decimal128Builder, Decimal256Builder, Decimal32Builder, Decimal64Builder,
    DurationMicrosecondBuilder, DurationMillisecondBuilder, DurationNanosecondBuilder,
    DurationSecondBuilder, Float16Builder, Float32Builder, Float64Builder, Int16Builder,
    Int32Builder, Int64Builder, Int8Builder, IntervalDayTimeBuilder, IntervalMonthDayNanoBuilder,
    IntervalYearMonthBuilder, LargeBinaryBuilder, LargeStringBuilder, StringBuilder,
    StringViewBuilder, Time32MillisecondBuilder, Time32SecondBuilder, Time64MicrosecondBuilder,
    Time64NanosecondBuilder, TimestampMicrosecondBuilder, TimestampMillisecondBuilder,
    TimestampNanosecondBuilder, TimestampSecondBuilder, UInt16Builder, UInt32Builder, UInt64Builder,
    UInt8Builder,
};
use arrow_array::cast::AsArray;
use arrow_array::Array;
use arrow_schema::{DataType, IntervalUnit, TimeUnit};
use vstd::prelude::*;

use crate::limits::{ample, buffers_total, extent_total};
use crate::model::{concatenates, offset_max, total, ArrayModel, Primitive, Shape, TypeModel};
use crate::outside::{contents, AnyArray};

verus! {

/// A builder of arrays of one type: a boxed `arrow_array::builder::ArrayBuilder`.
#[verifier::external_body]
pub struct ColumnBuilder {
    inner: Box<dyn ArrayBuilder>,
}

/// The type of the array that a builder builds.
pub uninterp spec fn built_type(builder: ColumnBuilder) -> TypeModel;

/// The arrays that a builder has been given so far.
pub uninterp spec fn built(builder: ColumnBuilder) -> Seq<ArrayModel>;

/// The slots and the bytes that a builder was made for.
pub uninterp spec fn made_for(builder: ColumnBuilder) -> (int, int);

/// Whether an array can be appended to those that a builder has been given: offsets and view
/// buffers have to be numbered through.
pub open spec fn accepts(given: Seq<ArrayModel>, m: ArrayModel) -> bool {
    let all = given.push(m);
    &&& total(all) <= usize::MAX
    &&& m.data_type.shape matches Shape::Bytes { large } ==> extent_total(all) <= offset_max(large)
    &&& m.data_type.shape is View ==> buffers_total(all) <= u32::MAX
}

impl ColumnBuilder {
    /// `make_builder` makes an empty builder for the type of an array, with room for a number of slots
    /// that memory can be addressed for.
    #[verifier::external_body]
    pub(crate) fn new(like: &AnyArray, capacity: usize) -> (r: ColumnBuilder)
        requires
            ample(capacity as int),
            contents(*like).data_type.shape is Boolean || contents(
                *like,
            ).data_type.shape is Primitive || contents(*like).data_type.shape is View,
        ensures
            built_type(r) == contents(*like).data_type,
            built(r) == Seq::<ArrayModel>::empty(),
            made_for(r) == (capacity as int, 0int),
    {
        ColumnBuilder { inner: make_builder(like.inner.data_type(), capacity) }
    }

    /// `GenericByteBuilder::with_capacity` makes an empty builder of strings or byte strings, with room for
    /// a number of them and of their bytes that memory can be addressed for.
    #[verifier::external_body]
    pub(crate) fn bytes(like: &AnyArray, items: usize, bytes: usize) -> (r: ColumnBuilder)
        requires
            ample(items as int),
            ample(bytes as int),
            contents(*like).data_type.shape is Bytes,
        ensures
            built_type(r) == contents(*like).data_type,
            built(r) == Seq::<ArrayModel>::empty(),
            made_for(r) == (items as int, bytes as int),
    {
        let inner: Box<dyn ArrayBuilder> = match like.inner.data_type() {
            DataType::Utf8 => Box::new(StringBuilder::with_capacity(items, bytes)),
            DataType::LargeUtf8 => Box::new(LargeStringBuilder::with_capacity(items, bytes)),
            DataType::Binary => Box::new(BinaryBuilder::with_capacity(items, bytes)),
            _ => Box::new(LargeBinaryBuilder::with_capacity(items, bytes)),
        };
        ColumnBuilder { inner }
    }

    /// `PrimitiveBuilder::append_array` appends the slots of an array of the builder's own type, here of
    /// signed integers.
    #[verifier::external_body]
    fn append_signed(&mut self, array: &AnyArray, kind: Primitive)
        requires
            accepts(built(*old(self)), contents(*array)),
            built_type(*old(self)) == contents(*array).data_type,
            contents(*array).data_type.shape == Shape::Primitive(kind),
            kind is Int8 || kind is Int16 || kind is Int32 || kind is Int64,
        ensures
            built(*final(self)) == built(*old(self)).push(contents(*array)),
            built_type(*final(self)) == built_type(*old(self)),
    {
        let (b, a) = (self.inner.as_any_mut(), &array.inner);
        match a.data_type() {
            DataType::Int8 => b.downcast_mut::<Int8Builder>().unwrap().append_array(a.as_primitive()),
            DataType::Int16 => b.downcast_mut::<Int16Builder>().unwrap().append_array(a.as_primitive()),
            DataType::Int32 => b.downcast_mut::<Int32Builder>().unwrap().append_array(a.as_primitive()),
            _ => b.downcast_mut::<Int64Builder>().unwrap().append_array(a.as_primitive()),
        }
    }

    /// `PrimitiveBuilder::append_array` appends the slots of an array of the builder's own type, here of
    /// unsigned integers.
    #[verifier::external_body]
    fn append_unsigned(&mut self, array: &AnyArray, kind: Primitive)
        requires
            accepts(built(*old(self)), contents(*array)),
            built_type(*old(self)) == contents(*array).data_type,
            contents(*array).data_type.shape == Shape::Primitive(kind),
            kind is UInt8 || kind is UInt16 || kind is UInt32 || kind is UInt64,
        ensures
            built(*final(self)) == built(*old(self)).push(contents(*array)),
            built_type(*final(self)) == built_type(*old(self)),
    {
        let (b, a) = (self.inner.as_any_mut(), &array.inner);
        match a.data_type() {
            DataType::UInt8 => b.downcast_mut::<UInt8Builder>().unwrap().append_array(a.as_primitive()),
            DataType::UInt16 => b.downcast_mut::<UInt16Builder>().unwrap().append_array(a.as_primitive()),
            DataType::UInt32 => b.downcast_mut::<UInt32Builder>().unwrap().append_array(a.as_primitive()),
            _ => b.downcast_mut::<UInt64Builder>().unwrap().append_array(a.as_primitive()),
        }
    }

    /// `PrimitiveBuilder::append_array` appends the slots of an array of the builder's own type, here of
    /// floating-point numbers.
    #[verifier::external_body]
    fn append_float(&mut self, array: &AnyArray, kind: Primitive)
        requires
            accepts(built(*old(self)), contents(*array)),
            built_type(*old(self)) == contents(*array).data_type,
            contents(*array).data_type.shape == Shape::Primitive(kind),
            kind is Float,
        ensures
            built(*final(self)) == built(*old(self)).push(contents(*array)),
            built_type(*final(self)) == built_type(*old(self)),
    {
        let (b, a) = (self.inner.as_any_mut(), &array.inner);
        match a.data_type() {
            DataType::Float16 => b.downcast_mut::<Float16Builder>().unwrap().append_array(a.as_primitive()),
            DataType::Float32 => b.downcast_mut::<Float32Builder>().unwrap().append_array(a.as_primitive()),
            _ => b.downcast_mut::<Float64Builder>().unwrap().append_array(a.as_primitive()),
        }
    }

    /// `PrimitiveBuilder::append_array` appends the slots of an array of the builder's own type, here of
    /// decimal numbers.
    #[verifier::external_body]
    fn append_decimal(&mut self, array: &AnyArray, kind: Primitive)
        requires
            accepts(built(*old(self)), contents(*array)),
            built_type(*old(self)) == contents(*array).data_type,
            contents(*array).data_type.shape == Shape::Primitive(kind),
            kind is Decimal,
        ensures
            built(*final(self)) == built(*old(self)).push(contents(*array)),
            built_type(*final(self)) == built_type(*old(self)),
    {
        let (b, a) = (self.inner.as_any_mut(), &array.inner);
        match a.data_type() {
            DataType::Decimal32(..) => b.downcast_mut::<Decimal32Builder>().unwrap().append_array(a.as_primitive()),
            DataType::Decimal64(..) => b.downcast_mut::<Decimal64Builder>().unwrap().append_array(a.as_primitive()),
            DataType::Decimal128(..) => b.downcast_mut::<Decimal128Builder>().unwrap().append_array(a.as_primitive()),
            _ => b.downcast_mut::<Decimal256Builder>().unwrap().append_array(a.as_primitive()),
        }
    }

    /// `PrimitiveBuilder::append_array` appends the slots of an array of the builder's own type, here of
    /// dates and intervals.
    #[verifier::external_body]
    fn append_date_or_interval(&mut self, array: &AnyArray, kind: Primitive)
        requires
            accepts(built(*old(self)), contents(*array)),
            built_type(*old(self)) == contents(*array).data_type,
            contents(*array).data_type.shape == Shape::Primitive(kind),
            kind is Date || kind is Interval,
        ensures
            built(*final(self)) == built(*old(self)).push(contents(*array)),
            built_type(*final(self)) == built_type(*old(self)),
    {
        let (b, a) = (self.inner.as_any_mut(), &array.inner);
        match a.data_type() {
            DataType::Date32 => b.downcast_mut::<Date32Builder>().unwrap().append_array(a.as_primitive()),
            DataType::Date64 => b.downcast_mut::<Date64Builder>().unwrap().append_array(a.as_primitive()),
            DataType::Interval(IntervalUnit::YearMonth) => b.downcast_mut::<IntervalYearMonthBuilder>().unwrap().append_array(a.as_primitive()),
            DataType::Interval(IntervalUnit::DayTime) => b.downcast_mut::<IntervalDayTimeBuilder>().unwrap().append_array(a.as_primitive()),
            _ => b.downcast_mut::<IntervalMonthDayNanoBuilder>().unwrap().append_array(a.as_primitive()),
        }
    }

    /// `PrimitiveBuilder::append_array` appends the slots of an array of the builder's own type, here of
    /// times of day.
    #[verifier::external_body]
    fn append_time(&mut self, array: &AnyArray, kind: Primitive)
        requires
            accepts(built(*old(self)), contents(*array)),
            built_type(*old(self)) == contents(*array).data_type,
            contents(*array).data_type.shape == Shape::Primitive(kind),
            kind is Time,
        ensures
            built(*final(self)) == built(*old(self)).push(contents(*array)),
            built_type(*final(self)) == built_type(*old(self)),
    {
        let (b, a) = (self.inner.as_any_mut(), &array.inner);
        match a.data_type() {
            DataType::Time32(TimeUnit::Second) => b.downcast_mut::<Time32SecondBuilder>().unwrap().append_array(a.as_primitive()),
            DataType::Time32(_) => b.downcast_mut::<Time32MillisecondBuilder>().unwrap().append_array(a.as_primitive()),
            DataType::Time64(TimeUnit::Microsecond) => b.downcast_mut::<Time64MicrosecondBuilder>().unwrap().append_array(a.as_primitive()),
            _ => b.downcast_mut::<Time64NanosecondBuilder>().unwrap().append_array(a.as_primitive()),
        }
    }

    /// `PrimitiveBuilder::append_array` appends the slots of an array of the builder's own type, here of
    /// timestamps.
    #[verifier::external_body]
    fn append_timestamp(&mut self, array: &AnyArray, kind: Primitive)
        requires
            accepts(built(*old(self)), contents(*array)),
            built_type(*old(self)) == contents(*array).data_type,
            contents(*array).data_type.shape == Shape::Primitive(kind),
            kind is Timestamp,
        ensures
            built(*final(self)) == built(*old(self)).push(contents(*array)),
            built_type(*final(self)) == built_type(*old(self)),
    {
        let (b, a) = (self.inner.as_any_mut(), &array.inner);
        match a.data_type() {
            DataType::Timestamp(TimeUnit::Second, _) => b.downcast_mut::<TimestampSecondBuilder>().unwrap().append_array(a.as_primitive()),
            DataType::Timestamp(TimeUnit::Millisecond, _) => b.downcast_mut::<TimestampMillisecondBuilder>().unwrap().append_array(a.as_primitive()),
            DataType::Timestamp(TimeUnit::Microsecond, _) => b.downcast_mut::<TimestampMicrosecondBuilder>().unwrap().append_array(a.as_primitive()),
            _ => b.downcast_mut::<TimestampNanosecondBuilder>().unwrap().append_array(a.as_primitive()),
        }
    }

    /// `PrimitiveBuilder::append_array` appends the slots of an array of the builder's own type, here of
    /// durations.
    #[verifier::external_body]
    fn append_duration(&mut self, array: &AnyArray, kind: Primitive)
        requires
            accepts(built(*old(self)), contents(*array)),
            built_type(*old(self)) == contents(*array).data_type,
            contents(*array).data_type.shape == Shape::Primitive(kind),
            kind is Duration,
        ensures
            built(*final(self)) == built(*old(self)).push(contents(*array)),
            built_type(*final(self)) == built_type(*old(self)),
    {
        let (b, a) = (self.inner.as_any_mut(), &array.inner);
        match a.data_type() {
            DataType::Duration(TimeUnit::Second) => b.downcast_mut::<DurationSecondBuilder>().unwrap().append_array(a.as_primitive()),
            DataType::Duration(TimeUnit::Millisecond) => b.downcast_mut::<DurationMillisecondBuilder>().unwrap().append_array(a.as_primitive()),
            DataType::Duration(TimeUnit::Microsecond) => b.downcast_mut::<DurationMicrosecondBuilder>().unwrap().append_array(a.as_primitive()),
            _ => b.downcast_mut::<DurationNanosecondBuilder>().unwrap().append_array(a.as_primitive()),
        }
    }

    /// `BooleanBuilder::append_array` appends the slots of a boolean array.
    #[verifier::external_body]
    pub(crate) fn append_boolean(&mut self, array: &AnyArray)
        requires
            accepts(built(*old(self)), contents(*array)),
            built_type(*old(self)) == contents(*array).data_type,
            contents(*array).data_type.shape is Boolean,
        ensures
            built(*final(self)) == built(*old(self)).push(contents(*array)),
            built_type(*final(self)) == built_type(*old(self)),
    {
        let (b, a) = (self.inner.as_any_mut(), &array.inner);
        b.downcast_mut::<BooleanBuilder>().unwrap().append_array(a.as_boolean())
    }

    /// `GenericByteBuilder::append_array` appends the slots of an array of strings or byte strings.
    #[verifier::external_body]
    pub(crate) fn append_bytes(&mut self, array: &AnyArray)
        requires
            accepts(built(*old(self)), contents(*array)),
            built_type(*old(self)) == contents(*array).data_type,
            contents(*array).data_type.shape is Bytes,
        ensures
            built(*final(self)) == built(*old(self)).push(contents(*array)),
            built_type(*final(self)) == built_type(*old(self)),
    {
        let (b, a) = (self.inner.as_any_mut(), &array.inner);
        match a.data_type() {
            DataType::Utf8 => b.downcast_mut::<StringBuilder>().unwrap().append_array(a.as_bytes()),
            DataType::LargeUtf8 => b.downcast_mut::<LargeStringBuilder>().unwrap().append_array(a.as_bytes()),
            DataType::Binary => b.downcast_mut::<BinaryBuilder>().unwrap().append_array(a.as_bytes()),
            _ => b.downcast_mut::<LargeBinaryBuilder>().unwrap().append_array(a.as_bytes()),
        }
    }

    /// `GenericByteViewBuilder::append_array` appends the slots of an array of views.
    #[verifier::external_body]
    pub(crate) fn append_views(&mut self, array: &AnyArray)
        requires
            accepts(built(*old(self)), contents(*array)),
            built_type(*old(self)) == contents(*array).data_type,
            contents(*array).data_type.shape is View,
        ensures
            built(*final(self)) == built(*old(self)).push(contents(*array)),
            built_type(*final(self)) == built_type(*old(self)),
    {
        let (b, a) = (self.inner.as_any_mut(), &array.inner);
        match a.data_type() {
            DataType::Utf8View => b.downcast_mut::<StringViewBuilder>().unwrap().append_array(a.as_byte_view()),
            _ => b.downcast_mut::<BinaryViewBuilder>().unwrap().append_array(a.as_byte_view()),
        }
    }

    /// `ArrayBuilder::finish` gives the slots of all arrays appended, in order. The offsets of strings and
    /// byte strings span just the bytes of those slots, and the bits of booleans are just their slots.
    #[verifier::external_body]
    pub(crate) fn finish(&mut self) -> (r: AnyArray)
        requires
            built(*old(self)).len() > 0,
        ensures
            concatenates(built(*old(self)), contents(r)),
            contents(r).data_type.shape is Bytes ==> contents(r).offsets[0] == 0 && contents(
                r,
            ).offsets.last() == extent_total(built(*old(self))),
            contents(r).data_type.shape is Boolean ==> contents(r).offset == 0,
    {
        AnyArray { inner: self.inner.finish() }
    }

    /// Appends the slots of a primitive array.
    pub(crate) fn append_primitive(&mut self, array: &AnyArray, kind: Primitive)
        requires
            accepts(built(*old(self)), contents(*array)),
            built_type(*old(self)) == contents(*array).data_type,
            contents(*array).data_type.shape == Shape::Primitive(kind),
        ensures
            built(*final(self)) == built(*old(self)).push(contents(*array)),
            built_type(*final(self)) == built_type(*old(self)),
    {
        match kind {
            Primitive::Int8 => self.append_signed(array, kind),
            Primitive::Int16 => self.append_signed(array, kind),
            Primitive::Int32 => self.append_signed(array, kind),
            Primitive::Int64 => self.append_signed(array, kind),
            Primitive::UInt8 => self.append_unsigned(array, kind),
            Primitive::UInt16 => self.append_unsigned(array, kind),
            Primitive::UInt32 => self.append_unsigned(array, kind),
            Primitive::UInt64 => self.append_unsigned(array, kind),
            Primitive::Float => self.append_float(array, kind),
            Primitive::Decimal => self.append_decimal(array, kind),
            Primitive::Date => self.append_date_or_interval(array, kind),
            Primitive::Interval => self.append_date_or_interval(array, kind),
            Primitive::Time => self.append_time(array, kind),
            Primitive::Timestamp => self.append_timestamp(array, kind),
            Primitive::Duration => self.append_duration(array, kind),
        }
    }
}

} // verus!

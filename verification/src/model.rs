//! Mathematical models of Arrow types and arrays.
//!
//! An array is modelled twice over. [`ArrayModel`] is what an array stores: its type, its validity
//! bits, its cells, offsets or keys, and its child arrays. [`rows`] is what it means: one
//! [`Value`] for each of its slots. The contracts of this crate say what concatenation does to
//! the rows; the stored parts are what the limits of the Arrow format speak of.
use vstd::prelude::*;

verus! {

/// The element types that share one fixed-width layout.
#[derive(Clone, Copy, PartialEq, Eq, Structural, Debug)]
pub enum Primitive {
    Int8,
    Int16,
    Int32,
    Int64,
    UInt8,
    UInt16,
    UInt32,
    UInt64,
    Float,
    Decimal,
    Date,
    Time,
    Timestamp,
    Interval,
    Duration,
}

/// The layout of an array, as far as concatenation tells layouts apart.
#[derive(Clone, Copy, PartialEq, Eq, Structural, Debug)]
pub enum Shape {
    Null,
    Boolean,
    Primitive(Primitive),
    /// Strings and byte strings behind 32-bit offsets, or 64-bit ones where `large`.
    Bytes { large: bool },
    /// Strings and byte strings behind views into shared buffers.
    View,
    /// Byte strings of the given length each.
    FixedBinary(i32),
    /// Lists behind 32-bit offsets, or 64-bit ones where `large`.
    List { large: bool },
    /// Lists of the given number of items each.
    FixedList(i32),
    ListView,
    Struct,
    MapEntries,
    Dictionary,
    Runs,
    Union { dense: bool },
    /// A kind and a unit that do not go together: no array is of such a type.
    Unused,
}

/// A field of a nested type. `name` stands for its name and its metadata, `id` for its type id where
/// it belongs to a union.
#[verifier::ext_equal]
pub struct FieldModel {
    pub name: Seq<char>,
    pub id: int,
    pub nullable: bool,
    pub data_type: TypeModel,
}

/// A data type. `detail` stands for what tells it from the other types of its shape and fields:
/// unit, time zone, precision, width.
///
/// The fields of a dictionary are its key type and its value type; those of a run-end encoded
/// type are its run ends and its values.
#[verifier::ext_equal]
pub struct TypeModel {
    pub shape: Shape,
    pub detail: Seq<char>,
    pub fields: Seq<FieldModel>,
}

/// What an array stores. A part that its shape does not use is empty.
#[verifier::ext_equal]
pub struct ArrayModel {
    pub data_type: TypeModel,
    /// The number of slots.
    pub len: nat,
    /// Runs: how many rows of the stored runs lie before the first slot. Booleans: how many bits do.
    pub offset: nat,
    /// One bit for each slot, `false` where the slot is null. `None` where no slot is null.
    pub nulls: Option<Seq<bool>>,
    /// The bytes of each slot, those of null slots included.
    pub cells: Seq<Seq<u8>>,
    /// Byte strings, lists and maps: where each slot starts, and where the last one ends.
    /// List views and dense unions: where each slot starts.
    pub offsets: Seq<int>,
    /// Dictionaries: the key of each slot. Runs: where each stored run ends. Unions: the index of
    /// the first field that has the type id of each slot, or the number of fields if none has. List
    /// views: the number of items of each slot.
    pub ints: Seq<int>,
    /// Views: the number of buffers that the views point into.
    pub buffers: nat,
    /// Runs: the number of bytes of the buffer of the run ends.
    pub end_bytes: nat,
    /// Lists and maps: the items. Structs and unions: the columns. Dictionaries and runs: the
    /// values.
    pub children: Seq<ArrayModel>,
}

/// What a slot of an array means.
#[verifier::ext_equal]
pub enum Value {
    Null,
    /// The bytes of a value without parts.
    Cell(Seq<u8>),
    /// The items of a list.
    List(Seq<Value>),
    /// The fields of a struct.
    Record(Seq<Value>),
    /// A value of one of the children of a union.
    Tagged(int, Box<Value>),
}

/// Whether the validity bits mark slot `i` as null.
pub open spec fn null_at(m: ArrayModel, i: int) -> bool {
    m.nulls matches Some(bits) && !bits[i]
}

/// The validity of every slot.
pub open spec fn validity(m: ArrayModel) -> Seq<bool> {
    match m.nulls {
        Some(bits) => bits,
        None => Seq::new(m.len, |i: int| true),
    }
}

/// Validity bits as an array holds them: none where no slot is null.
pub open spec fn some_nulls(bits: Seq<bool>) -> Option<Seq<bool>> {
    if bits.contains(false) {
        Some(bits)
    } else {
        None
    }
}

/// The stored run that row `pos` of the stored runs lies in.
pub open spec fn run_of(ends: Seq<int>, pos: int) -> int
    decreases ends.len(),
{
    if ends.len() == 0 || pos < ends[0] {
        0
    } else {
        1 + run_of(ends.drop_first(), pos)
    }
}

/// What slot `i` means.
pub open spec fn row(m: ArrayModel, i: int) -> Value
    decreases m, 1int,
{
    if null_at(m, i) {
        Value::Null
    } else {
        match m.data_type.shape {
            Shape::Null => Value::Null,
            Shape::Boolean => Value::Cell(m.cells[i]),
            Shape::Primitive(_) => Value::Cell(m.cells[i]),
            Shape::Bytes { .. } => Value::Cell(m.cells[i]),
            Shape::View => Value::Cell(m.cells[i]),
            Shape::FixedBinary(_) => Value::Cell(m.cells[i]),
            Shape::Unused => Value::Null,
            Shape::List { .. } => items(m, m.offsets[i], m.offsets[i + 1]),
            Shape::MapEntries => items(m, m.offsets[i], m.offsets[i + 1]),
            Shape::ListView => items(m, m.offsets[i], m.offsets[i] + m.ints[i]),
            Shape::FixedList(size) => items(m, i * size, (i + 1) * size),
            Shape::Struct => Value::Record(
                Seq::new(
                    m.children.len(),
                    |j: int|
                        if 0 <= j < m.children.len() {
                            row(m.children[j], i)
                        } else {
                            Value::Null
                        },
                ),
            ),
            Shape::Dictionary => child_row(m, 0, m.ints[i]),
            Shape::Runs => child_row(m, 0, run_of(m.ints, m.offset + i)),
            Shape::Union { dense } => Value::Tagged(
                m.ints[i],
                Box::new(
                    child_row(
                        m,
                        m.ints[i],
                        if dense {
                            m.offsets[i]
                        } else {
                            i
                        },
                    ),
                ),
            ),
        }
    }
}

/// What slot `i` of the `j`-th child means.
pub open spec fn child_row(m: ArrayModel, j: int, i: int) -> Value
    decreases m, 0int,
{
    if 0 <= j < m.children.len() {
        row(m.children[j], i)
    } else {
        Value::Null
    }
}

/// The list of the items from `start` to `end`.
pub open spec fn items(m: ArrayModel, start: int, end: int) -> Value
    decreases m, 0int,
{
    if m.children.len() > 0 && start <= end {
        Value::List(Seq::new((end - start) as nat, |k: int| row(m.children[0], start + k)))
    } else {
        Value::List(seq![])
    }
}

/// The meaning of an array: what each of its slots means.
pub open spec fn rows(m: ArrayModel) -> Seq<Value> {
    Seq::new(m.len, |i: int| row(m, i))
}

/// The rows of the arrays, one array after the other.
pub open spec fn joined(ms: Seq<ArrayModel>) -> Seq<Value>
    decreases ms.len(),
{
    if ms.len() == 0 {
        seq![]
    } else {
        joined(ms.drop_last()) + rows(ms.last())
    }
}

/// The validity of the arrays, one array after the other.
pub open spec fn joined_validity(ms: Seq<ArrayModel>) -> Seq<bool>
    decreases ms.len(),
{
    if ms.len() == 0 {
        seq![]
    } else {
        joined_validity(ms.drop_last()) + validity(ms.last())
    }
}

/// The validity bits of the arrays, one array after the other.
pub open spec fn joined_nulls(ms: Seq<ArrayModel>) -> Option<Seq<bool>> {
    some_nulls(joined_validity(ms))
}

/// The number of slots of the arrays together.
pub open spec fn total(ms: Seq<ArrayModel>) -> nat
    decreases ms.len(),
{
    if ms.len() == 0 {
        0
    } else {
        total(ms.drop_last()) + ms.last().len
    }
}

/// The part of an array that starts at slot `start` and has `len` slots.
pub open spec fn sliced(m: ArrayModel, start: int, len: int) -> ArrayModel
    decreases m, 1int,
{
    let shape = m.data_type.shape;
    ArrayModel {
        data_type: m.data_type,
        len: len as nat,
        offset: if shape is Runs || shape is Boolean {
            (m.offset + start) as nat
        } else {
            m.offset
        },
        nulls: match m.nulls {
            Some(bits) => some_nulls(bits.subrange(start, start + len)),
            None => None,
        },
        cells: if cell_shape(shape) {
            m.cells.subrange(start, start + len)
        } else {
            m.cells
        },
        offsets: if offset_shape(shape) {
            m.offsets.subrange(start, start + len + 1)
        } else if shape is ListView || shape == (Shape::Union { dense: true }) {
            m.offsets.subrange(start, start + len)
        } else {
            m.offsets
        },
        ints: if shape is Dictionary || shape is ListView || shape is Union {
            m.ints.subrange(start, start + len)
        } else {
            m.ints
        },
        buffers: m.buffers,
        end_bytes: m.end_bytes,
        children: match shape {
            Shape::Struct => sliced_children(m, start, len),
            Shape::FixedList(size) => sliced_children(m, start * size, len * size),
            Shape::Union { dense } => if dense {
                m.children
            } else {
                sliced_children(m, start, len)
            },
            _ => m.children,
        },
    }
}

/// The same part of every child.
pub open spec fn sliced_children(m: ArrayModel, start: int, len: int) -> Seq<ArrayModel>
    decreases m, 0int,
{
    Seq::new(
        m.children.len(),
        |j: int|
            if 0 <= j < m.children.len() {
                sliced(m.children[j], start, len)
            } else {
                m
            },
    )
}

/// Whether arrays of this shape hold bytes for each slot.
pub open spec fn cell_shape(shape: Shape) -> bool {
    match shape {
        Shape::Boolean => true,
        Shape::Primitive(_) => true,
        Shape::Bytes { .. } => true,
        Shape::View => true,
        Shape::FixedBinary(_) => true,
        _ => false,
    }
}

/// Whether arrays of this shape hold one offset more than slots.
pub open spec fn offset_shape(shape: Shape) -> bool {
    match shape {
        Shape::Bytes { .. } => true,
        Shape::List { .. } => true,
        Shape::MapEntries => true,
        _ => false,
    }
}

/// The type of the `j`-th child of an array of type `t`.
pub open spec fn child_type(t: TypeModel, j: int) -> TypeModel {
    match t.shape {
        Shape::Dictionary => t.fields[1].data_type,
        Shape::Runs => t.fields[1].data_type,
        _ => t.fields[j].data_type,
    }
}

/// Whether offsets are not negative and never fall.
pub open spec fn ascending(offsets: Seq<int>) -> bool {
    &&& forall|i: int| 0 <= i < offsets.len() ==> 0 <= #[trigger] offsets[i]
    &&& forall|i: int, j: int|
        0 <= i <= j < offsets.len() ==> #[trigger] offsets[i] <= #[trigger] offsets[j]
}

/// Whether run ends are not negative and each is greater than the one before it.
pub open spec fn rising(ends: Seq<int>) -> bool {
    &&& forall|i: int| 0 <= i < ends.len() ==> 0 <= #[trigger] ends[i]
    &&& forall|i: int, j: int|
        0 <= i < j < ends.len() ==> #[trigger] ends[i] < #[trigger] ends[j]
}

/// Whether the children of an array have the types that its fields give them. Those of structs and
/// unions may have others.
pub open spec fn children_typed(m: ArrayModel) -> bool {
    m.data_type.shape !is Struct && m.data_type.shape !is Union ==> forall|j: int|
        0 <= j < m.children.len() ==> (#[trigger] m.children[j]).data_type == child_type(
            m.data_type,
            j,
        )
}

/// The first field from the `j`-th on that has this type id, or the number of fields if none has.
pub open spec fn first_with(fields: Seq<FieldModel>, id: int, j: int) -> int
    decreases fields.len() - j,
{
    if j < 0 || j >= fields.len() {
        fields.len() as int
    } else if fields[j].id == id {
        j
    } else {
        first_with(fields, id, j + 1)
    }
}

/// The type of integers of this shape.
pub open spec fn integer_type(shape: Shape) -> TypeModel {
    TypeModel { shape, detail: seq![], fields: seq![] }
}

/// A field without a name that takes nulls.
pub open spec fn bare_field(data_type: TypeModel) -> FieldModel {
    FieldModel { name: seq![], id: 0, nullable: true, data_type }
}

/// The type of dictionaries of these keys and values.
pub open spec fn dictionary_type(key: TypeModel, value: TypeModel) -> TypeModel {
    TypeModel {
        shape: Shape::Dictionary,
        detail: seq![],
        fields: seq![bare_field(key), bare_field(value)],
    }
}

/// Whether run ends can be integers of this shape.
pub open spec fn run_end_kind(shape: Shape) -> bool {
    match shape {
        Shape::Primitive(kind) => kind is Int16 || kind is Int32 || kind is Int64,
        _ => false,
    }
}

/// Whether the parts of an array agree with each other, its children left aside.
pub open spec fn layout_valid(m: ArrayModel) -> bool {
    let t = m.data_type;
    match t.shape {
        Shape::Null => m.nulls is None,
        Shape::Boolean => m.cells.len() == m.len,
        Shape::Primitive(_) => m.cells.len() == m.len,
        Shape::View => m.cells.len() == m.len,
        Shape::FixedBinary(_) => m.cells.len() == m.len,
        Shape::Unused => false,
        Shape::Bytes { .. } => {
            &&& m.cells.len() == m.len
            &&& m.offsets.len() == m.len + 1
            &&& ascending(m.offsets)
        },
        Shape::List { .. } => offsets_valid(m),
        Shape::MapEntries => {
            &&& offsets_valid(m)
            &&& t.fields[0].data_type.shape is Struct
            &&& t.fields[0].data_type.fields.len() == 2
        },
        Shape::FixedList(size) => {
            &&& size >= 0
            &&& t.fields.len() == 1
            &&& m.children.len() == 1
            &&& m.children[0].len >= m.len * size
        },
        Shape::ListView => {
            &&& t.fields.len() == 1
            &&& m.children.len() == 1
            &&& m.offsets.len() == m.len
            &&& m.ints.len() == m.len
        },
        Shape::Struct => {
            &&& m.children.len() == t.fields.len()
            &&& forall|j: int|
                0 <= j < m.children.len() ==> (#[trigger] m.children[j]).len == m.len
        },
        Shape::Dictionary => {
            &&& t == dictionary_type(t.fields[0].data_type, t.fields[1].data_type)
            &&& index_max(t) > 0
            &&& t.fields[0].data_type == integer_type(t.fields[0].data_type.shape)
            &&& m.children.len() == 1
            &&& m.ints.len() == m.len
            &&& forall|i: int| 0 <= i < m.len ==> #[trigger] m.ints[i] <= index_max(t)
            &&& forall|i: int|
                0 <= i < m.len && !null_at(m, i) ==> 0 <= #[trigger] m.ints[i]
                    < m.children[0].len
        },
        Shape::Runs => {
            &&& t.fields.len() == 2
            &&& m.children.len() == 1
            &&& m.nulls is None
            &&& run_end_kind(t.fields[0].data_type.shape)
            &&& m.ints.len() == m.children[0].len
            &&& rising(m.ints)
            &&& forall|i: int| 0 <= i < m.ints.len() ==> #[trigger] m.ints[i] <= index_max(t)
            &&& m.len > 0 ==> m.ints.len() > 0 && m.offset + m.len <= m.ints.last()
        },
        Shape::Union { dense } => {
            &&& m.nulls is None
            &&& m.children.len() == t.fields.len()
            &&& m.ints.len() == m.len
            &&& forall|i: int| 0 <= i < m.len ==> 0 <= #[trigger] m.ints[i] < m.children.len()
            &&& forall|j: int| 0 <= j < t.fields.len() ==> 0 <= (#[trigger] t.fields[j]).id
            &&& dense ==> m.offsets.len() == m.len && forall|i: int|
                0 <= i < m.len ==> 0 <= #[trigger] m.offsets[i] < m.children[m.ints[i]].len
            &&& !dense ==> forall|j: int|
                0 <= j < m.children.len() ==> (#[trigger] m.children[j]).len == m.len
        },
    }
}

/// Whether the offsets of a list or map array lie in its items.
pub open spec fn offsets_valid(m: ArrayModel) -> bool {
    &&& m.data_type.fields.len() == 1
    &&& m.children.len() == 1
    &&& m.offsets.len() == m.len + 1
    &&& ascending(m.offsets)
    &&& m.offsets.last() <= m.children[0].len
}

/// Whether the parts of an array agree with each other as far as every array of Arrow's has it, its
/// children left aside. Arrow does not hold the run ends of run-end encoded arrays to their values and
/// length, nor the type ids of unions to their fields and the offsets and lengths of their children.
pub open spec fn layout_sound(m: ArrayModel) -> bool {
    let t = m.data_type;
    match t.shape {
        Shape::Runs => {
            &&& t.fields.len() == 2
            &&& m.children.len() == 1
            &&& m.nulls is None
            &&& run_end_kind(t.fields[0].data_type.shape)
            &&& forall|i: int| 0 <= i < m.ints.len() ==> #[trigger] m.ints[i] <= index_max(t)
        },
        Shape::Union { dense } => {
            &&& m.nulls is None
            &&& m.children.len() == t.fields.len()
            &&& m.ints.len() == m.len
            &&& forall|j: int| 0 <= j < t.fields.len() ==> 0 <= (#[trigger] t.fields[j]).id
            &&& dense ==> m.offsets.len() == m.len
        },
        _ => layout_valid(m),
    }
}

/// Whether an array agrees with itself as far as every array of Arrow's does.
pub open spec fn sound(m: ArrayModel) -> bool
    decreases m,
{
    &&& m.nulls matches Some(bits) ==> bits.len() == m.len && bits.contains(false)
    &&& children_typed(m)
    &&& layout_sound(m)
    &&& forall|j: int| 0 <= j < m.children.len() ==> sound(#[trigger] m.children[j])
}

/// Whether an array agrees with itself.
pub open spec fn valid(m: ArrayModel) -> bool
    decreases m,
{
    &&& m.nulls matches Some(bits) ==> bits.len() == m.len && bits.contains(false)
    &&& children_typed(m)
    &&& layout_valid(m)
    &&& forall|j: int| 0 <= j < m.children.len() ==> valid(#[trigger] m.children[j])
}

/// Whether an array is one of Arrow's and has `len` slots.
pub open spec fn sound_with_len(m: ArrayModel, len: usize) -> bool {
    &&& sound(m)
    &&& m.len == len
}

/// Whether an array is one of Arrow's and has the type `t`.
pub open spec fn sound_with_type(m: ArrayModel, t: TypeModel) -> bool {
    &&& sound(m)
    &&& m.data_type == t
}

/// Whether Arrow finds nothing wrong with an array when it tests it: the children of structs and unions
/// have the types of their fields, run ends have fields that take no null, and the bits of booleans
/// that hold nulls start with the first slot, for Arrow takes the validity bits to start where those
/// do.
pub open spec fn sturdy(m: ArrayModel) -> bool
    decreases m,
{
    match m.data_type.shape {
        Shape::Null => true,
        Shape::Boolean => m.offset == 0 || m.nulls is None,
        Shape::Primitive(_) => true,
        Shape::Bytes { .. } => true,
        Shape::View => true,
        Shape::FixedBinary(_) => true,
        shape => {
            &&& shape is Struct || shape is Union ==> own_types(m)
            &&& shape is Runs ==> !m.data_type.fields[0].nullable
            &&& forall|j: int| 0 <= j < m.children.len() ==> sturdy(#[trigger] m.children[j])
        },
    }
}

/// Whether the children of a struct array or a union have the types of its fields.
pub open spec fn own_types(m: ArrayModel) -> bool {
    forall|j: int|
        0 <= j < m.children.len() ==> (#[trigger] m.children[j]).data_type
            == m.data_type.fields[j].data_type
}

/// Whether a value counts as null: a union's does where the value of its child does.
pub open spec fn absent(value: Value) -> bool
    decreases value,
{
    match value {
        Value::Null => true,
        Value::Tagged(_, inner) => absent(*inner),
        _ => false,
    }
}

/// Whether an array reports that it holds nulls. Dictionaries and runs do where the values they refer
/// to hold some, used or not, and unions where a child does.
pub open spec fn reports_null(m: ArrayModel) -> bool
    decreases m,
{
    match m.data_type.shape {
        Shape::Null => m.len > 0,
        Shape::Dictionary => m.len > 0 && (m.nulls is Some || exists|j: int|
            0 <= j < m.children.len() && reports_null(#[trigger] m.children[j])),
        Shape::Runs => m.len > 0 && exists|j: int|
            0 <= j < m.children.len() && reports_null(#[trigger] m.children[j]),
        Shape::Union { .. } => exists|j: int|
            0 <= j < m.children.len() && reports_null(#[trigger] m.children[j]),
        _ => m.nulls is Some,
    }
}

/// Whether an array or the values that it refers to hold a null, the values of empty arrays included.
pub open spec fn holds_null(m: ArrayModel) -> bool
    decreases m,
{
    match m.data_type.shape {
        Shape::Null => m.len > 0,
        Shape::Dictionary => m.nulls is Some || exists|j: int|
            0 <= j < m.children.len() && holds_null(#[trigger] m.children[j]),
        Shape::Runs => exists|j: int|
            0 <= j < m.children.len() && holds_null(#[trigger] m.children[j]),
        Shape::Union { .. } => exists|j: int|
            0 <= j < m.children.len() && holds_null(#[trigger] m.children[j]),
        _ => m.nulls is Some,
    }
}

/// Whether one of the arrays holds a null.
pub open spec fn some_hold_null(ms: Seq<ArrayModel>) -> bool {
    exists|i: int| 0 <= i < ms.len() && holds_null(#[trigger] ms[i])
}

/// Whether an array holds a null only where one of the arrays does.
pub open spec fn no_new_nulls(ms: Seq<ArrayModel>, out: ArrayModel) -> bool {
    holds_null(out) ==> some_hold_null(ms)
}

/// Whether the nulls of arrays of type `t` are told slot by slot: not those of unions.
pub open spec fn clear_nulls(t: TypeModel) -> bool
    decreases t,
{
    match t.shape {
        Shape::Union { .. } => false,
        Shape::Dictionary => t.fields.len() > 1 && clear_nulls(t.fields[1].data_type),
        Shape::Runs => t.fields.len() > 1 && clear_nulls(t.fields[1].data_type),
        _ => true,
    }
}

/// Whether `out` is what the arrays make when put one after the other.
pub open spec fn concatenates(ms: Seq<ArrayModel>, out: ArrayModel) -> bool {
    &&& valid(out)
    &&& out.data_type == ms[0].data_type
    &&& out.len == total(ms)
    &&& out.nulls == joined_nulls(ms)
    &&& rows(out) == joined(ms)
}

/// The greatest number that an integer of this kind holds; none for what is no integer.
pub open spec fn integer_max(p: Primitive) -> int {
    match p {
        Primitive::Int8 => i8::MAX as int,
        Primitive::Int16 => i16::MAX as int,
        Primitive::Int32 => i32::MAX as int,
        Primitive::Int64 => i64::MAX as int,
        Primitive::UInt8 => u8::MAX as int,
        Primitive::UInt16 => u16::MAX as int,
        Primitive::UInt32 => u32::MAX as int,
        Primitive::UInt64 => u64::MAX as int,
        _ => -1,
    }
}

/// The greatest key of a dictionary type, or the greatest run end of a run-end encoded type.
pub open spec fn index_max(t: TypeModel) -> int {
    match t.fields[0].data_type.shape {
        Shape::Primitive(p) => integer_max(p),
        _ => -1,
    }
}

/// The bytes of a run end of a run-end encoded type.
pub open spec fn end_width(t: TypeModel) -> nat {
    match t.fields[0].data_type.shape {
        Shape::Primitive(Primitive::Int16) => 2,
        Shape::Primitive(Primitive::Int32) => 4,
        _ => 8,
    }
}

/// The greatest offset of an offset type.
pub open spec fn offset_max(large: bool) -> int {
    if large {
        i64::MAX as int
    } else {
        i32::MAX as int
    }
}

} // verus!

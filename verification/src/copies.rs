//! Which arrays Arrow can copy one after the other, and the room that is asked for, in terms of the arrays
//! alone.
use vstd::prelude::*;

use crate::capacity::room;
use crate::checks::{can_copy, can_count_room, can_source};
use crate::joins::{all_valid, one_type};
use crate::kernels::if_ample;
use crate::limits::{
    child_models, copies_fit, fixed_models, room_fits, roomy, sources_fit, used_models,
};
use crate::model::{index_max, total, valid, ArrayModel, Shape, TypeModel};
use crate::outside::{contents, models, AnyArray, Hint};
use crate::parts::lemma_used_type;
use crate::promises::{
    column_of, columns_typed, fixed_items_of, items_of, lemma_column, lemma_pointed_into,
    lemma_slots, lemma_spanned, lemma_values, pointed_into, slots, spanned,
};

verus! {

// Copies

/// Whether arrays of one type can be copied, as far as offsets, run ends and lengths go.
pub open spec fn can_be_placed(ms: Seq<ArrayModel>) -> bool {
    ms.len() > 0 ==> copies_fit(ms[0].data_type, ms)
}

/// Whether arrays of one type can be copied, as far as keys and view buffers go.
pub open spec fn can_be_read(ms: Seq<ArrayModel>) -> bool {
    ms.len() > 0 ==> sources_fit(ms[0].data_type, ms)
}

/// Arrays whose slots are all of one width, bits, views, keys or nulls can be copied if their slots can be
/// counted.
pub proof fn flat_arrays_can_be_placed(ms: Seq<ArrayModel>)
    requires
        ms.len() > 0,
        match ms[0].data_type.shape {
            Shape::Null => true,
            Shape::Boolean => true,
            Shape::Primitive(_) => true,
            Shape::FixedBinary(_) => true,
            Shape::View => true,
            Shape::Dictionary => true,
            _ => false,
        },
        slots(ms) <= usize::MAX,
    ensures
        can_be_placed(ms),
{
    lemma_slots(ms);
}

/// Strings and byte strings can be copied if offsets can number their bytes.
pub proof fn strings_can_be_placed(ms: Seq<ArrayModel>, large: bool)
    requires
        ms.len() > 0,
        ms[0].data_type.shape == (Shape::Bytes { large }),
        slots(ms) <= usize::MAX,
        spanned(ms) <= usize::MAX,
        spanned(ms) <= if large {
            i64::MAX as int
        } else {
            i32::MAX as int
        },
    ensures
        can_be_placed(ms),
{
    lemma_slots(ms);
    lemma_spanned(ms);
}

/// Lists and maps can be copied if their items can and offsets can number those.
pub proof fn lists_can_be_placed(ms: Seq<ArrayModel>)
    requires
        all_valid(ms),
        one_type(ms),
        ms.len() > 0,
        ms[0].data_type.shape is List || ms[0].data_type.shape is MapEntries,
        slots(ms) <= usize::MAX,
        slots(items_of(ms)) <= if ms[0].data_type.shape == (Shape::List { large: true }) {
            i64::MAX as int
        } else {
            i32::MAX as int
        },
        can_be_placed(items_of(ms)),
    ensures
        can_be_placed(ms),
{
    lemma_slots(ms);
    lemma_slots(items_of(ms));
    assert(valid(ms[0]));
    lemma_used_type(ms);
    assert(items_of(ms) =~= used_models(ms));
}

/// Lists of fixed size can be copied if their items can.
pub proof fn fixed_lists_can_be_placed(ms: Seq<ArrayModel>, size: i32)
    requires
        all_valid(ms),
        ms.len() > 0,
        ms[0].data_type.shape == Shape::FixedList(size),
        slots(ms) <= usize::MAX,
        can_be_placed(fixed_items_of(ms, size as int)),
    ensures
        can_be_placed(ms),
{
    lemma_slots(ms);
    assert(valid(ms[0]));
    assert(fixed_items_of(ms, size as int) =~= fixed_models(ms, size as int));
    assert(fixed_items_of(ms, size as int)[0].data_type
        == ms[0].data_type.fields[0].data_type);
}

/// Structs, and unions that are not dense, can be copied if their columns can.
pub proof fn structs_can_be_placed(ms: Seq<ArrayModel>)
    requires
        ms.len() > 0,
        ms[0].data_type.shape is Struct || ms[0].data_type.shape == (Shape::Union { dense: false }),
        slots(ms) <= usize::MAX,
        columns_typed(ms),
        forall|j: int|
            0 <= j < ms[0].data_type.fields.len() ==> can_be_placed(#[trigger] column_of(ms, j)),
    ensures
        can_be_placed(ms),
{
    let t = ms[0].data_type;
    lemma_slots(ms);
    assert forall|j: int| 0 <= j < t.fields.len() implies copies_fit(
        (#[trigger] t.fields[j]).data_type,
        child_models(ms, j),
    ) by {
        lemma_column(ms, j);
        assert(can_be_placed(column_of(ms, j)));
    }
}

/// Arrays that hold no others can be read for a copy: numbers unless they are intervals, and views if their
/// buffers can be numbered.
pub proof fn flat_arrays_can_be_read(ms: Seq<ArrayModel>)
    requires
        ms.len() > 0,
        match ms[0].data_type.shape {
            Shape::Null => true,
            Shape::Boolean => true,
            Shape::Primitive(kind) => kind !is Interval,
            Shape::FixedBinary(_) => true,
            Shape::Bytes { .. } => true,
            Shape::View => pointed_into(ms) <= u32::MAX,
            _ => false,
        },
    ensures
        can_be_read(ms),
{
    lemma_pointed_into(ms);
}

/// Dictionaries can be read for a copy if their values can be read, copied and given room, and all stored
/// keys stay in range behind the values of the arrays before.
pub proof fn dictionaries_can_be_read(ms: Seq<ArrayModel>)
    requires
        all_valid(ms),
        one_type(ms),
        ms.len() > 0,
        ms[0].data_type.shape is Dictionary,
        slots(column_of(ms, 0)) <= index_max(ms[0].data_type),
        slots(column_of(ms, 0)) <= usize::MAX,
        forall|i: int, k: int|
            0 <= i < ms.len() && 0 <= k < ms[i].ints.len() ==> #[trigger] ms[i].ints[k] + slots(
                column_of(ms, 0).take(i),
            ) <= index_max(ms[0].data_type),
        roomy(ms[0].data_type.fields[1].data_type, slots(column_of(ms, 0))),
        can_be_read(column_of(ms, 0)),
        can_be_placed(column_of(ms, 0)),
    ensures
        can_be_read(ms),
{
    let vs = column_of(ms, 0);
    assert(valid(ms[0]));
    lemma_values(ms);
    lemma_slots(vs);
    assert forall|i: int, k: int| 0 <= i < ms.len() && 0 <= k < ms[i].ints.len() implies #[trigger]
        ms[i].ints[k] + total(child_models(ms, 0).take(i)) <= index_max(ms[0].data_type) by {
        lemma_slots(vs.take(i));
    }
}

/// Lists, maps and lists of fixed size can be read for a copy if their items can.
pub proof fn lists_can_be_read(ms: Seq<ArrayModel>)
    requires
        all_valid(ms),
        ms.len() > 0,
        ms[0].data_type.shape is List || ms[0].data_type.shape is MapEntries
            || ms[0].data_type.shape is FixedList,
        can_be_read(column_of(ms, 0)),
    ensures
        can_be_read(ms),
{
    assert(valid(ms[0]));
    assert(column_of(ms, 0) =~= child_models(ms, 0));
    assert(column_of(ms, 0)[0].data_type == ms[0].data_type.fields[0].data_type);
}

/// Structs and unions can be read for a copy if their columns can.
pub proof fn structs_can_be_read(ms: Seq<ArrayModel>)
    requires
        ms.len() > 0,
        ms[0].data_type.shape is Struct || ms[0].data_type.shape is Union,
        columns_typed(ms),
        forall|j: int|
            0 <= j < ms[0].data_type.fields.len() ==> can_be_read(#[trigger] column_of(ms, j)),
    ensures
        can_be_read(ms),
{
    let t = ms[0].data_type;
    assert forall|j: int| 0 <= j < t.fields.len() implies sources_fit(
        (#[trigger] t.fields[j]).data_type,
        child_models(ms, j),
    ) by {
        lemma_column(ms, j);
        assert(can_be_read(column_of(ms, j)));
    }
}

// Room

/// Room can be counted if the slots can and, for strings, the bytes; for lists of fixed size, if that holds
/// of their items too.
pub proof fn room_can_be_counted(ms: Seq<ArrayModel>)
    requires
        all_valid(ms),
        ms.len() > 0,
        slots(ms) <= usize::MAX,
        ms[0].data_type.shape is Bytes ==> spanned(ms) <= usize::MAX,
        ms[0].data_type.shape is FixedList ==> room_fits(
            ms[0].data_type.fields[0].data_type,
            column_of(ms, 0),
        ),
    ensures
        room_fits(ms[0].data_type, ms),
{
    lemma_slots(ms);
    lemma_spanned(ms);
    assert(valid(ms[0]));
    assert(column_of(ms, 0) =~= child_models(ms, 0));
}

/// The room that lists of fixed size need tells of the room that their items need, if those are strings,
/// byte strings or again such lists.
pub proof fn room_is_for_items(t: TypeModel, ms: Seq<ArrayModel>)
    requires
        t.shape is FixedList,
        t.fields.len() > 0,
        t.fields[0].data_type.shape is Bytes || t.fields[0].data_type.shape is FixedList,
    ensures
        room(t, ms) matches Hint::Lists(n, items) && n == slots(ms) && *items == room(
            t.fields[0].data_type,
            column_of(ms, 0),
        ),
{
    lemma_slots(ms);
    assert(column_of(ms, 0) =~= child_models(ms, 0));
}

/// Room is asked for all slots if 64 bytes for each can be addressed.
pub proof fn room_is_asked_for(t: TypeModel, n: int)
    requires
        n * 64 + 128 <= isize::MAX,
        t.fields.len() == 0,
        t.shape !is FixedBinary,
    ensures
        if_ample(n) == n,
        roomy(t, n),
{
}

// The tests

/// What the tests tell of arrays is what holds of them.
pub proof fn copies_are_told(
    arrays: &[AnyArray],
    placed: bool,
    read: bool,
    counted: bool,
)
    requires
        all_valid(models(arrays@)),
        one_type(models(arrays@)),
        arrays@.len() > 0,
        call_ensures(can_copy, (arrays,), placed),
        call_ensures(can_source, (arrays,), read),
        call_ensures(can_count_room, (arrays,), counted),
    ensures
        placed == can_be_placed(models(arrays@)),
        read == can_be_read(models(arrays@)),
        counted == room_fits(contents(arrays@[0]).data_type, models(arrays@)),
{
    assert(models(arrays@)[0] == contents(arrays@[0]));
}

} // verus!

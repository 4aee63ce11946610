//! How much room a result needs.
use arrow_data::transform::Capacities;
use arrow_schema::DataType;
use vstd::prelude::*;

use crate::checks::can_count_room;
use crate::joins::{all_valid, lemma_take_step, lemma_total_prefix, one_type};
use crate::limits::{child_models, extent, extent_total, room_fits, roomy, typed_children};
use crate::model::{child_type, total, valid, ArrayModel, Shape, TypeModel};
use crate::outside::{
    bytes_capacity, contents, hint, hint_fits, lists_capacity, models, slots_capacity, spacious,
    type_model, types_are, AnyArray, Hint,
};
use crate::shapes::{field_types, shape_of};

verus! {

/// The number of slots of the arrays together.
pub fn total_len(arrays: &[AnyArray]) -> (r: usize)
    requires
        total(models(arrays@)) <= usize::MAX,
    ensures
        r == total(models(arrays@)),
{
    let ghost ms = models(arrays@);
    let mut len: usize = 0;
    let mut i: usize = 0;
    while i < arrays.len()
        invariant
            0 <= i <= arrays@.len(),
            ms == models(arrays@),
            len == total(ms.take(i as int)),
            total(ms) <= usize::MAX,
        decreases arrays@.len() - i,
    {
        let n: usize = arrays[i].len();
        proof {
            lemma_take_step(ms, i as int);
            lemma_total_prefix(ms, i + 1);
        }
        len += n;
        i += 1;
    }
    assert(ms.take(i as int) =~= ms);
    len
}

/// The first arrays span no more bytes than all.
pub proof fn lemma_extent_prefix(ms: Seq<ArrayModel>, i: int)
    requires
        0 <= i <= ms.len(),
        forall|k: int| 0 <= k < ms.len() ==> 0 <= extent(#[trigger] ms[k]),
    ensures
        extent_total(ms.take(i)) <= extent_total(ms),
    decreases ms.len() - i,
{
    if i < ms.len() {
        lemma_take_step(ms, i);
        assert(0 <= extent(ms[i]));
        lemma_extent_prefix(ms, i + 1);
    } else {
        assert(ms.take(i) =~= ms);
    }
}

/// The offsets of byte strings span no negative number of bytes.
pub proof fn lemma_extent_bytes(m: ArrayModel)
    requires
        valid(m),
        m.data_type.shape is Bytes,
    ensures
        0 <= extent(m),
        m.offsets.len() == m.len + 1,
{
    assert(m.offsets[0] <= m.offsets[m.len as int]);
}

/// The items and the bytes of arrays of strings or byte strings together.
pub(crate) fn binary_totals(arrays: &[AnyArray], large: bool) -> (r: (usize, usize))
    requires
        forall|i: int|
            0 <= i < arrays@.len() ==> contents(#[trigger] arrays@[i]).data_type.shape == (
            Shape::Bytes { large }),
        total(models(arrays@)) <= usize::MAX,
        extent_total(models(arrays@)) <= usize::MAX,
        all_valid(models(arrays@)),
    ensures
        r.0 == total(models(arrays@)),
        r.1 == extent_total(models(arrays@)),
{
    let ghost ms = models(arrays@);
    let mut items: usize = 0;
    let mut bytes: usize = 0;
    let mut i: usize = 0;
    assert forall|k: int| 0 <= k < ms.len() implies 0 <= extent(#[trigger] ms[k]) by {
        assert(contents(arrays@[k]).data_type.shape == (Shape::Bytes { large }));
        assert(valid(ms[k]));
        lemma_extent_bytes(ms[k]);
    }
    while i < arrays.len()
        invariant
            0 <= i <= arrays@.len(),
            ms == models(arrays@),
            forall|k: int|
                0 <= k < arrays@.len() ==> contents(#[trigger] arrays@[k]).data_type.shape == (
                Shape::Bytes { large }),
            forall|k: int| 0 <= k < ms.len() ==> 0 <= extent(#[trigger] ms[k]),
            all_valid(ms),
            items == total(ms.take(i as int)),
            bytes == extent_total(ms.take(i as int)),
            total(ms) <= usize::MAX,
            extent_total(ms) <= usize::MAX,
        decreases arrays@.len() - i,
    {
        let array = &arrays[i];
        let len: usize = array.len();
        proof {
            assert(ms[i as int] == contents(arrays@[i as int]));
            lemma_extent_bytes(ms[i as int]);
            lemma_take_step(ms, i as int);
            lemma_total_prefix(ms, i + 1);
            lemma_extent_prefix(ms, i + 1);
            lemma_extent_prefix(ms.take(i as int), 0);
            assert(ms.take(i as int).take(0) =~= seq![]);
        }
        if large {
            let offsets = array.offsets_64();
            let first: i64 = offsets[0];
            let last: i64 = offsets[offsets.len() - 1];
            assert(first == ms[i as int].offsets[0]);
            assert(last == ms[i as int].offsets.last());
            bytes += (last - first) as usize;
        } else {
            let offsets = array.offsets_32();
            let first: i32 = offsets[0];
            let last: i32 = offsets[offsets.len() - 1];
            assert(first == ms[i as int].offsets[0]);
            assert(last == ms[i as int].offsets.last());
            bytes += (last - first) as usize;
        }
        items += len;
        i += 1;
    }
    assert(ms.take(i as int) =~= ms);
    (items, bytes)
}

/// The room that arrays of strings or byte strings need.
pub(crate) fn binary_capacity(arrays: &[AnyArray], large: bool) -> (r: Capacities)
    requires
        forall|i: int|
            0 <= i < arrays@.len() ==> contents(#[trigger] arrays@[i]).data_type.shape == (
            Shape::Bytes { large }),
        total(models(arrays@)) <= usize::MAX,
        extent_total(models(arrays@)) <= usize::MAX,
        all_valid(models(arrays@)),
    ensures
        hint(r) == Hint::Bytes(
            total(models(arrays@)) as int,
            extent_total(models(arrays@)),
        ),
{
    let (items, bytes) = binary_totals(arrays, large);
    bytes_capacity(items, bytes)
}

/// The room that arrays of type `t` need: slots and bytes where the bytes are to be known
/// beforehand, slots alone otherwise.
pub open spec fn room(t: TypeModel, ms: Seq<ArrayModel>) -> Hint
    decreases t,
{
    match t.shape {
        Shape::Bytes { .. } => Hint::Bytes(total(ms) as int, extent_total(ms)),
        Shape::FixedList(_) => if t.fields.len() > 0 && (t.fields[0].data_type.shape is Bytes
            || t.fields[0].data_type.shape is FixedList) {
            Hint::Lists(
                total(ms) as int,
                Box::new(room(t.fields[0].data_type, child_models(ms, 0))),
            )
        } else {
            Hint::Slots(total(ms) as int)
        },
        _ => Hint::Slots(total(ms) as int),
    }
}

/// The children of valid arrays of one type are valid arrays of one type.
pub proof fn lemma_children(ms: Seq<ArrayModel>, j: int)
    requires
        all_valid(ms),
        one_type(ms),
        forall|i: int| 0 <= i < ms.len() ==> 0 <= j < (#[trigger] ms[i]).children.len(),
        ms.len() > 0 && (ms[0].data_type.shape is Struct || ms[0].data_type.shape is Union)
            ==> typed_children(ms[0].data_type, ms) && j < ms[0].data_type.fields.len(),
    ensures
        all_valid(child_models(ms, j)),
        one_type(child_models(ms, j)),
        ms.len() > 0 ==> child_models(ms, j)[0].data_type == child_type(ms[0].data_type, j),
{
    assert forall|i: int| 0 <= i < ms.len() implies valid(#[trigger] child_models(ms, j)[i])
        && child_models(ms, j)[i].data_type == child_type(ms[0].data_type, j) by {
        assert(valid(ms[i]));
        assert(valid(ms[i].children[j]));
        assert(ms[i].data_type == ms[0].data_type);
    }
}

/// The `j`-th child of each array.
pub(crate) fn children(arrays: &[AnyArray], j: usize) -> (r: Vec<AnyArray>)
    requires
        forall|i: int|
            0 <= i < arrays@.len() ==> j < contents(#[trigger] arrays@[i]).children.len()
                && contents(arrays@[i]).data_type.shape !is Runs,
    ensures
        models(r@) == child_models(models(arrays@), j as int),
{
    let mut out: Vec<AnyArray> = Vec::with_capacity(arrays.len());
    let mut i: usize = 0;
    while i < arrays.len()
        invariant
            0 <= i <= arrays@.len(),
            out@.len() == i,
            forall|k: int|
                0 <= k < arrays@.len() ==> j < contents(#[trigger] arrays@[k]).children.len()
                    && contents(arrays@[k]).data_type.shape !is Runs,
            forall|k: int|
                0 <= k < i ==> contents(#[trigger] out@[k]) == contents(
                    arrays@[k],
                ).children[j as int],
        decreases arrays@.len() - i,
    {
        out.push(arrays[i].child(j));
        i += 1;
    }
    assert(models(out@) =~= child_models(models(arrays@), j as int));
    out
}

/// The room that lists of fixed size need. That of strings and byte strings among their items is
/// counted, and so is that of lists of fixed size.
pub(crate) fn fixed_size_list_capacity(arrays: &[AnyArray]) -> (r: Capacities)
    requires
        arrays@.len() > 0,
        all_valid(models(arrays@)),
        one_type(models(arrays@)),
        contents(arrays@[0]).data_type.shape is FixedList,
        room_fits(contents(arrays@[0]).data_type, models(arrays@)),
    ensures
        hint(r) == room(contents(arrays@[0]).data_type, models(arrays@)),
        hint_fits(hint(r), contents(arrays@[0]).data_type),
    decreases contents(arrays@[0]).data_type, 0int,
{
    let ghost ms = models(arrays@);
    let item_capacity: usize = total_len(arrays);
    assert forall|i: int| 0 <= i < arrays@.len() implies 0 < contents(
        #[trigger] arrays@[i],
    ).children.len() && contents(arrays@[i]).data_type.shape !is Runs by {
        assert(valid(ms[i]));
        assert(ms[i].data_type == ms[0].data_type);
    }
    assert forall|i: int| 0 <= i < ms.len() implies 0 <= 0 < (#[trigger] ms[i]).children.len() by {
        assert(0 < contents(arrays@[i]).children.len());
    }
    proof {
        lemma_children(ms, 0);
        assert(valid(ms[0]));
    }
    let values = children(arrays, 0);
    assert(models(values@).len() == ms.len());
    assert(models(values@)[0] == child_models(ms, 0)[0]);
    let shape = shape_of(&values[0].data_type());
    let counted: bool = match shape {
        Shape::Bytes { .. } => true,
        Shape::FixedList(_) => true,
        _ => false,
    };
    if counted {
        lists_capacity(item_capacity, get_capacity(values.as_slice()))
    } else {
        slots_capacity(item_capacity)
    }
}

/// The room that arrays need.
pub(crate) fn get_capacity(arrays: &[AnyArray]) -> (r: Capacities)
    requires
        arrays@.len() > 0,
        all_valid(models(arrays@)),
        one_type(models(arrays@)),
        room_fits(contents(arrays@[0]).data_type, models(arrays@)),
    ensures
        hint(r) == room(contents(arrays@[0]).data_type, models(arrays@)),
        hint_fits(hint(r), contents(arrays@[0]).data_type),
    decreases contents(arrays@[0]).data_type, 1int,
{
    let ghost ms = models(arrays@);
    assert forall|i: int| 0 <= i < arrays@.len() implies contents(
        #[trigger] arrays@[i],
    ).data_type == ms[0].data_type by {
        assert(ms[i].data_type == ms[0].data_type);
    }
    assert(ms[0] == contents(arrays@[0]));
    match shape_of(&arrays[0].data_type()) {
        Shape::Bytes { large } => binary_capacity(arrays, large),
        Shape::FixedList(_) => fixed_size_list_capacity(arrays),
        _ => slots_capacity(total_len(arrays)),
    }
}

/// No memory at all can be asked for.
proof fn lemma_roomy_zero(t: TypeModel)
    ensures
        roomy(t, 0),
    decreases t,
{
    assert forall|j: int| 0 <= j < t.fields.len() implies roomy(
        (#[trigger] t.fields[j]).data_type,
        0,
    ) by {
        lemma_roomy_zero(t.fields[j].data_type);
    }
}

/// Where memory for a field cannot be asked for, memory for the whole cannot.
proof fn lemma_not_roomy(t: TypeModel, n: int, j: int)
    requires
        t.shape !is Dictionary,
        t.shape !is FixedBinary,
        0 <= j < t.fields.len(),
        !roomy(
            t.fields[j].data_type,
            match t.shape {
                Shape::FixedList(size) => if size < 0 {
                    0
                } else {
                    n * size
                },
                _ => n,
            },
        ),
    ensures
        !roomy(t, n),
{
}

/// Whether memory for `n` slots of a type can be asked for beforehand.
pub(crate) fn has_room(data_type: &DataType, n: usize) -> (r: bool)
    ensures
        r == roomy(type_model(*data_type), n as int),
    decreases type_model(*data_type),
{
    let ghost t = type_model(*data_type);
    let limit: u128 = isize::MAX as u128;
    if n as u128 * 64 + 128 > limit {
        return false;
    }
    let slots: usize = match shape_of(data_type) {
        Shape::FixedBinary(width) => {
            if width < 0 {
                assert(n * width <= 0) by (nonlinear_arith)
                    requires
                        n >= 0,
                        width < 0,
                ;
                return true;
            }
            return match n.checked_mul(width as usize) {
                Some(bytes) => bytes as u128 + 128 <= limit,
                None => false,
            };
        },
        Shape::FixedList(size) => {
            if size < 0 {
                0
            } else {
                match n.checked_mul(size as usize) {
                    Some(items) => items,
                    None => {
                        let types = field_types(data_type);
                        proof {
                            if types@.len() > 0 {
                                assert(!roomy(t.fields[0].data_type, n * size));
                            }
                        }
                        return types.len() == 0;
                    },
                }
            }
        },
        Shape::Dictionary => {
            return true;
        },
        _ => n,
    };
    let types = field_types(data_type);
    let mut j: usize = 0;
    while j < types.len()
        invariant
            0 <= j <= types@.len(),
            t == type_model(*data_type),
            types_are(types@, t.fields),
            n * 64 + 128 <= isize::MAX,
            t.shape !is Dictionary,
            t.shape !is FixedBinary,
            slots == match t.shape {
                Shape::FixedList(size) => if size < 0 {
                    0
                } else {
                    n * size
                },
                _ => n as int,
            },
            forall|k: int|
                0 <= k < j ==> roomy((#[trigger] t.fields[k]).data_type, slots as int),
        decreases types@.len() - j,
    {
        let ghost field = t.fields[j as int];
        assert(type_model(types@[j as int]) == t.fields[j as int].data_type);
        if !has_room(&types[j], slots) {
            assert(0 <= j < t.fields.len());
            assert(!roomy(t.fields[j as int].data_type, slots as int));
            proof {
                lemma_not_roomy(t, n as int, j as int);
            }
            return false;
        }
        j += 1;
    }
    true
}

/// A hint for `n` slots of a type, or for none if that memory cannot be asked for.
pub(crate) fn slots_hint(data_type: &DataType, n: usize) -> (r: Capacities)
    ensures
        hint(r) == Hint::Slots(
            if roomy(type_model(*data_type), n as int) {
                n as int
            } else {
                0
            },
        ),
        spacious(hint(r), type_model(*data_type)),
{
    if has_room(data_type, n) {
        slots_capacity(n)
    } else {
        proof {
            lemma_roomy_zero(type_model(*data_type));
        }
        slots_capacity(0)
    }
}

/// Whether the memory that arrays need can be asked for beforehand.
fn can_spare(arrays: &[AnyArray]) -> (r: bool)
    requires
        arrays@.len() > 0,
        all_valid(models(arrays@)),
        one_type(models(arrays@)),
        room_fits(contents(arrays@[0]).data_type, models(arrays@)),
    ensures
        r == spacious(
            room(contents(arrays@[0]).data_type, models(arrays@)),
            contents(arrays@[0]).data_type,
        ),
    decreases contents(arrays@[0]).data_type,
{
    let ghost ms = models(arrays@);
    let ghost t = ms[0].data_type;
    assert(ms[0] == contents(arrays@[0]));
    assert forall|i: int| 0 <= i < arrays@.len() implies valid(contents(#[trigger] arrays@[i]))
        && contents(arrays@[i]).data_type == t by {
        assert(valid(ms[i]));
        assert(ms[i].data_type == t);
    }
    let limit: u128 = isize::MAX as u128;
    let slots: usize = total_len(arrays);
    let data_type = arrays[0].data_type();
    match shape_of(&data_type) {
        Shape::Bytes { large } => {
            let (_items, bytes) = binary_totals(arrays, large);
            slots as u128 * 64 + 128 <= limit && bytes as u128 * 64 + 128 <= limit
        },
        Shape::FixedList(_) => {
            proof {
                lemma_children(ms, 0);
            }
            let values = children(arrays, 0);
            assert(models(values@).len() == ms.len());
            assert(models(values@)[0] == child_models(ms, 0)[0]);
            let counted: bool = match shape_of(&values[0].data_type()) {
                Shape::Bytes { .. } => true,
                Shape::FixedList(_) => true,
                _ => false,
            };
            if counted {
                slots as u128 * 64 + 128 <= limit && can_spare(values.as_slice())
            } else {
                has_room(&data_type, slots)
            }
        },
        _ => has_room(&data_type, slots),
    }
}

/// The room that arrays need, as far as it can be counted and asked for; no room otherwise.
pub(crate) fn copy_capacity(arrays: &[AnyArray]) -> (r: Capacities)
    requires
        arrays@.len() > 0,
        all_valid(models(arrays@)),
        one_type(models(arrays@)),
    ensures
        ({
            let t = contents(arrays@[0]).data_type;
            let needed = room(t, models(arrays@));
            &&& hint_fits(hint(r), t)
            &&& spacious(hint(r), t)
            &&& hint(r) == if room_fits(t, models(arrays@)) && spacious(needed, t) {
                needed
            } else {
                Hint::Slots(0)
            }
        }),
{
    if can_count_room(arrays) && can_spare(arrays) {
        get_capacity(arrays)
    } else {
        proof {
            lemma_roomy_zero(contents(arrays@[0]).data_type);
        }
        slots_capacity(0)
    }
}

} // verus!

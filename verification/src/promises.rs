//! What callers can rely on: which arrays are within the limits, when concatenation succeeds, what every
//! error tells, and what the result holds, in terms of the arrays alone.
use vstd::prelude::*;

use crate::concat::{
    cause_of, columns_pass, explained, in_limits, refused, result_of, run_values_of,
};
use crate::dictionary::{crowded, refers};
use crate::error::ConcatError;
use crate::joins::{
    all_valid, joined_columns, lemma_joined_at, lemma_joined_len, lemma_joined_nulls, lemma_null_at,
    lemma_run_bounds, lemma_run_of, lemma_validity, one_type,
};
use crate::laws::{
    error_has_a_cause, hardy, joined_is_additive, lemma_fixed_of_type, lemma_never_fails,
    lemma_plain, never_fails, plain, run_values_are_accepted, valid_of_type,
};
use crate::limits::{
    buffers_total, child_models, copies_fit, copyable, distinct_ids, extent_total, fits,
    fixed_models, picked, picked_models, run_count, run_models, sources_fit, typed_children,
    used_models, viewless,
};
use crate::model::{
    absent, clear_nulls, concatenates, holds_null, index_max, joined, joined_validity, null_at,
    rising, row, rows, run_of, sliced, sturdy, total, valid, validity, ArrayModel, Primitive, Shape,
    TypeModel, Value,
};
use crate::outside::{contents, unclear_nulls, unmasked_null, AnyArray};
use crate::parts::{lemma_run_models, lemma_used_type};
use crate::pieces::{lemma_fixed_join, lemma_locate};

verus! {

// Counting

/// What the arrays measure together.
pub open spec fn summed(ms: Seq<ArrayModel>, measure: spec_fn(ArrayModel) -> int) -> int
    decreases ms.len(),
{
    if ms.len() == 0 {
        0
    } else {
        summed(ms.drop_last(), measure) + measure(ms.last())
    }
}

/// The number of slots of the arrays together.
pub open spec fn slots(ms: Seq<ArrayModel>) -> int {
    summed(ms, |m: ArrayModel| m.len as int)
}

/// The number of bytes or items that the offsets of the arrays span together.
pub open spec fn spanned(ms: Seq<ArrayModel>) -> int {
    summed(ms, |m: ArrayModel| m.offsets.last() - m.offsets[0])
}

/// The number of buffers of view arrays together.
pub open spec fn pointed_into(ms: Seq<ArrayModel>) -> int {
    summed(ms, |m: ArrayModel| m.buffers as int)
}

/// Slots are counted one array after the other.
pub proof fn lemma_slots(ms: Seq<ArrayModel>)
    ensures
        slots(ms) == total(ms),
    decreases ms.len(),
{
    if ms.len() > 0 {
        lemma_slots(ms.drop_last());
    }
}

/// Spans are counted one array after the other.
pub proof fn lemma_spanned(ms: Seq<ArrayModel>)
    ensures
        spanned(ms) == extent_total(ms),
    decreases ms.len(),
{
    if ms.len() > 0 {
        lemma_spanned(ms.drop_last());
    }
}

/// Buffers are counted one array after the other.
pub proof fn lemma_pointed_into(ms: Seq<ArrayModel>)
    ensures
        pointed_into(ms) == buffers_total(ms),
    decreases ms.len(),
{
    if ms.len() > 0 {
        lemma_pointed_into(ms.drop_last());
    }
}

// Limits

/// No array, one array that agrees with itself, and arrays of different types are within the limits.
pub proof fn few_arrays_are_within_the_limits(ms: Seq<ArrayModel>)
    requires
        ms.len() == 0 || (ms.len() == 1 && valid(ms[0])) || !one_type(ms),
    ensures
        in_limits(ms),
{
}

/// Arrays whose slots are all of one width, bits, or keys of dictionaries, and arrays of nulls, are within
/// the limits if their slots can be counted.
pub proof fn flat_arrays_are_within_the_limits(ms: Seq<ArrayModel>)
    requires
        all_valid(ms),
        one_type(ms),
        ms.len() > 0,
        match ms[0].data_type.shape {
            Shape::Null => true,
            Shape::Boolean => true,
            Shape::Primitive(_) => true,
            Shape::FixedBinary(_) => true,
            Shape::Dictionary => true,
            _ => false,
        },
        slots(ms) <= usize::MAX,
    ensures
        in_limits(ms),
{
    lemma_slots(ms);
    assert(valid(ms[0]));
}

/// Strings and byte strings are within the limits if their bytes can be numbered by offsets.
pub proof fn strings_are_within_the_limits(ms: Seq<ArrayModel>, large: bool)
    requires
        all_valid(ms),
        one_type(ms),
        ms.len() > 0,
        ms[0].data_type.shape == (Shape::Bytes { large }),
        slots(ms) <= usize::MAX,
        spanned(ms) <= usize::MAX,
        spanned(ms) <= if large {
            i64::MAX as int
        } else {
            i32::MAX as int
        },
    ensures
        in_limits(ms),
{
    lemma_slots(ms);
    lemma_spanned(ms);
}

/// Views are within the limits if their buffers can be numbered.
pub proof fn views_are_within_the_limits(ms: Seq<ArrayModel>)
    requires
        all_valid(ms),
        one_type(ms),
        ms.len() > 0,
        ms[0].data_type.shape is View,
        slots(ms) <= usize::MAX,
        pointed_into(ms) <= u32::MAX,
    ensures
        in_limits(ms),
{
    lemma_slots(ms);
    lemma_pointed_into(ms);
}

/// The items that the offsets of lists or maps span.
pub open spec fn items_of(ms: Seq<ArrayModel>) -> Seq<ArrayModel> {
    Seq::new(
        ms.len(),
        |i: int|
            sliced(
                ms[i].children[0],
                ms[i].offsets[0],
                ms[i].offsets.last() - ms[i].offsets[0],
            ),
    )
}

/// The items that lie in the slots of lists of fixed size.
pub open spec fn fixed_items_of(ms: Seq<ArrayModel>, size: int) -> Seq<ArrayModel> {
    Seq::new(ms.len(), |i: int| sliced(ms[i].children[0], 0, ms[i].len * size))
}

/// A column of structs, or a child of unions.
pub open spec fn column_of(ms: Seq<ArrayModel>, j: int) -> Seq<ArrayModel> {
    Seq::new(ms.len(), |i: int| ms[i].children[j])
}

/// Whether every column or child has the type of its field.
pub open spec fn columns_typed(ms: Seq<ArrayModel>) -> bool {
    forall|i: int, j: int|
        0 <= i < ms.len() && 0 <= j < ms[0].data_type.fields.len() ==> (
        #[trigger] ms[i].children[j]).data_type == ms[0].data_type.fields[j].data_type
}

/// Lists are within the limits if their items are, and can be numbered by offsets.
pub proof fn lists_are_within_the_limits(ms: Seq<ArrayModel>, large: bool)
    requires
        all_valid(ms),
        one_type(ms),
        ms.len() > 0,
        ms[0].data_type.shape == (Shape::List { large }),
        slots(ms) <= usize::MAX,
        slots(items_of(ms)) <= if large {
            i64::MAX as int
        } else {
            i32::MAX as int
        },
        in_limits(items_of(ms)),
    ensures
        in_limits(ms),
{
    lemma_slots(ms);
    lemma_slots(items_of(ms));
    assert(valid(ms[0]));
    lemma_used_type(ms);
    assert(items_of(ms) =~= used_models(ms));
}

/// Maps are within the limits if their entries are, and can be numbered by offsets.
pub proof fn maps_are_within_the_limits(ms: Seq<ArrayModel>)
    requires
        all_valid(ms),
        one_type(ms),
        ms.len() > 0,
        ms[0].data_type.shape is MapEntries,
        slots(ms) <= usize::MAX,
        slots(items_of(ms)) <= i32::MAX,
        in_limits(items_of(ms)),
    ensures
        in_limits(ms),
{
    lemma_slots(ms);
    lemma_slots(items_of(ms));
    assert(valid(ms[0]));
    lemma_used_type(ms);
    assert(items_of(ms) =~= used_models(ms));
}

/// Lists of fixed size are within the limits if their items are.
pub proof fn fixed_lists_are_within_the_limits(ms: Seq<ArrayModel>, size: i32)
    requires
        all_valid(ms),
        one_type(ms),
        ms.len() > 0,
        ms[0].data_type.shape == Shape::FixedList(size),
        slots(ms) <= usize::MAX,
        in_limits(fixed_items_of(ms, size as int)),
    ensures
        in_limits(ms),
{
    let t = ms[0].data_type;
    let fs = fixed_items_of(ms, size as int);
    lemma_slots(ms);
    assert(valid(ms[0]));
    assert(fs =~= fixed_models(ms, size as int));
    assert forall|i: int| 0 <= i < fs.len() implies (#[trigger] fs[i]).data_type
        == t.fields[0].data_type by {
        assert(valid(ms[i]));
        assert(ms[i].data_type == t);
    }
    assert(one_type(fs));
}

/// Structs are within the limits if their columns are.
pub proof fn structs_are_within_the_limits(ms: Seq<ArrayModel>)
    requires
        all_valid(ms),
        one_type(ms),
        ms.len() > 0,
        ms[0].data_type.shape is Struct,
        slots(ms) <= usize::MAX,
        columns_typed(ms),
        forall|j: int|
            0 <= j < ms[0].data_type.fields.len() ==> in_limits(#[trigger] column_of(ms, j)),
    ensures
        in_limits(ms),
{
    let t = ms[0].data_type;
    lemma_slots(ms);
    if ms.len() >= 2 {
        assert forall|j: int| 0 <= j < t.fields.len() implies fits(
            (#[trigger] t.fields[j]).data_type,
            child_models(ms, j),
        ) by {
            lemma_column(ms, j);
        }
    }
}

/// A column has one type, that of its field.
pub proof fn lemma_column(ms: Seq<ArrayModel>, j: int)
    requires
        ms.len() > 0,
        columns_typed(ms),
        0 <= j < ms[0].data_type.fields.len(),
    ensures
        column_of(ms, j) == child_models(ms, j),
        one_type(column_of(ms, j)),
        column_of(ms, j)[0].data_type == ms[0].data_type.fields[j].data_type,
{
    assert(column_of(ms, j) =~= child_models(ms, j));
    assert forall|i: int| 0 <= i < ms.len() implies (#[trigger] column_of(ms, j)[i]).data_type
        == ms[0].data_type.fields[j].data_type by {
        assert(ms[i].children[j].data_type == ms[0].data_type.fields[j].data_type);
    }
}

/// Unions are within the limits if their children are, the children can be numbered by offsets, and no two
/// fields have the same type id.
pub proof fn unions_are_within_the_limits(ms: Seq<ArrayModel>)
    requires
        all_valid(ms),
        one_type(ms),
        ms.len() > 0,
        ms[0].data_type.shape is Union,
        slots(ms) <= usize::MAX,
        columns_typed(ms),
        forall|i: int, j: int|
            0 <= i < j < ms[0].data_type.fields.len() ==> (#[trigger] ms[0].data_type.fields[i]).id
                != (#[trigger] ms[0].data_type.fields[j]).id,
        forall|j: int|
            0 <= j < ms[0].data_type.fields.len() ==> in_limits(#[trigger] column_of(ms, j))
                && slots(column_of(ms, j)) <= i32::MAX,
    ensures
        in_limits(ms),
{
    let t = ms[0].data_type;
    lemma_slots(ms);
    if ms.len() >= 2 {
        assert forall|j: int| 0 <= j < t.fields.len() implies {
            &&& fits((#[trigger] t.fields[j]).data_type, child_models(ms, j))
            &&& total(child_models(ms, j)) <= i32::MAX
        } by {
            lemma_column(ms, j);
            lemma_slots(column_of(ms, j));
        }
        assert(distinct_ids(t.fields));
    }
}

/// The runs that the rows of an array lie in are no more than the rows.
proof fn lemma_few_runs(m: ArrayModel)
    requires
        valid(m),
        m.data_type.shape is Runs,
        m.len > 0,
    ensures
        run_count(m) <= m.len,
{
    let last_pos = m.offset + m.len - 1;
    let a = run_of(m.ints, m.offset as int);
    let b = run_of(m.ints, last_pos);
    lemma_run_bounds(m);
    lemma_run_of(m.ints, m.offset as int);
    lemma_run_of(m.ints, last_pos);
    if b > a {
        lemma_rising_gap(m.ints, a, b - 1);
    }
}

/// Run ends that rise grow by as much at least as there are between them.
proof fn lemma_rising_gap(ends: Seq<int>, a: int, b: int)
    requires
        rising(ends),
        0 <= a <= b < ends.len(),
    ensures
        ends[b] - ends[a] >= b - a,
    decreases b - a,
{
    if a < b {
        lemma_rising_gap(ends, a, b - 1);
        assert(ends[b - 1] < ends[b]);
    }
}

/// Run-end encoded arrays have no more run values than rows.
proof fn lemma_few_run_values(ms: Seq<ArrayModel>)
    requires
        all_valid(ms),
        forall|i: int| 0 <= i < ms.len() ==> (#[trigger] ms[i]).data_type.shape is Runs,
    ensures
        total(run_models(ms)) <= total(ms),
    decreases ms.len(),
{
    if ms.len() > 0 {
        let front = ms.drop_last();
        let last = ms[ms.len() - 1];
        assert(valid(last));
        assert(last.data_type.shape is Runs);
        assert forall|i: int| 0 <= i < front.len() implies valid(#[trigger] front[i])
            && front[i].data_type.shape is Runs by {
            assert(front[i] == ms[i]);
        }
        lemma_few_run_values(front);
        if last.len > 0 {
            lemma_few_runs(last);
            lemma_run_bounds(last);
            assert(run_models(ms).drop_last() =~= run_models(front));
        }
    }
}

/// Run-end encoded arrays whose values are of one width, bits or nulls are within the limits if run ends
/// can number their rows.
pub proof fn runs_are_within_the_limits(ms: Seq<ArrayModel>)
    requires
        all_valid(ms),
        one_type(ms),
        ms.len() > 0,
        ms[0].data_type.shape is Runs,
        ms[0].data_type.fields[1].data_type.fields.len() == 0,
        match ms[0].data_type.fields[1].data_type.shape {
            Shape::Null => true,
            Shape::Boolean => true,
            Shape::Primitive(_) => true,
            Shape::FixedBinary(_) => true,
            _ => false,
        },
        slots(ms) <= usize::MAX,
        slots(ms) <= index_max(ms[0].data_type),
    ensures
        in_limits(ms),
{
    let t = ms[0].data_type;
    assert(valid(ms[0]));
    lemma_slots(ms);
    assert forall|i: int| 0 <= i < ms.len() implies (#[trigger] ms[i]).data_type.shape is Runs by {
        assert(ms[i].data_type == t);
    }
    lemma_few_run_values(ms);
    assert(viewless(t.fields[1].data_type));
    assert(fits(t.fields[1].data_type, run_models(ms))) by {
        assert(copyable(t.fields[1].data_type, run_models(ms)) || t.fields[1].data_type.shape is Primitive);
    }
}

/// Run-end encoded arrays are within the limits if run ends can number their rows and the values of their
/// runs are within the limits and hold no list views.
pub proof fn runs_of_all_kinds_are_within_the_limits(ms: Seq<ArrayModel>)
    requires
        all_valid(ms),
        one_type(ms),
        ms.len() > 0,
        ms[0].data_type.shape is Runs,
        viewless(ms[0].data_type.fields[1].data_type),
        slots(ms) <= usize::MAX,
        slots(ms) <= index_max(ms[0].data_type),
        in_limits(run_models(ms)),
    ensures
        in_limits(ms),
{
    lemma_slots(ms);
    assert(valid(ms[0]));
    lemma_run_models(ms);
    assert(fits(ms[0].data_type.fields[1].data_type, run_models(ms)));
}

// What the result holds

/// Whether an array has the type and all the slots of the arrays, one array after the other, null where
/// they are, and no other slots.
pub open spec fn holds_all(ms: Seq<ArrayModel>, out: ArrayModel) -> bool {
    &&& out.data_type == ms[0].data_type
    &&& out.len == slots(ms)
    &&& forall|i: int, k: int|
        0 <= i < ms.len() && 0 <= k < ms[i].len ==> {
            &&& row(out, slots(ms.take(i)) + k) == #[trigger] row(ms[i], k)
            &&& null_at(out, slots(ms.take(i)) + k) == null_at(ms[i], k)
        }
}

/// Whether concatenation succeeds and gives all the slots of the arrays.
pub open spec fn gives_all(ms: Seq<ArrayModel>, result: Result<AnyArray, ConcatError>) -> bool {
    result matches Ok(out) && holds_all(ms, contents(out))
}

/// The validity bit of a slot stands where the slot does.
proof fn lemma_validity_at(ms: Seq<ArrayModel>, i: int, k: int)
    requires
        all_valid(ms),
        0 <= i < ms.len(),
        0 <= k < ms[i].len,
    ensures
        joined_validity(ms)[total(ms.take(i)) + k] == validity(ms[i])[k],
    decreases ms.len(),
{
    let front = ms.drop_last();
    assert forall|q: int| 0 <= q < front.len() implies valid(#[trigger] front[q]) by {
        assert(front[q] == ms[q]);
    }
    lemma_joined_len(front);
    assert(valid(ms[i]));
    if i < front.len() {
        assert(front.take(i) =~= ms.take(i));
        lemma_validity_at(front, i, k);
        lemma_joined_at(front, i, k);
    } else {
        assert(ms.take(i) =~= front);
    }
}

/// A concatenated array holds all.
pub proof fn lemma_holds_all(ms: Seq<ArrayModel>, out: ArrayModel)
    requires
        all_valid(ms),
        ms.len() > 0,
        concatenates(ms, out),
    ensures
        holds_all(ms, out),
{
    lemma_slots(ms);
    lemma_joined_len(ms);
    lemma_validity(out, joined_validity(ms));
    assert forall|i: int, k: int| 0 <= i < ms.len() && 0 <= k < ms[i].len implies {
        &&& row(out, slots(ms.take(i)) + k) == #[trigger] row(ms[i], k)
        &&& null_at(out, slots(ms.take(i)) + k) == null_at(ms[i], k)
    } by {
        let e = total(ms.take(i)) + k;
        lemma_slots(ms.take(i));
        lemma_joined_at(ms, i, k);
        lemma_validity_at(ms, i, k);
        assert(valid(ms[i]));
        assert(rows(out)[e] == row(out, e));
        lemma_null_at(out, e);
        lemma_null_at(ms[i], k);
    }
}

/// Where concatenation succeeds, it gives all the slots of the arrays, in order.
pub proof fn success_gives_all(ms: Seq<ArrayModel>, result: Result<AnyArray, ConcatError>)
    requires
        all_valid(ms),
        ms.len() > 0,
        result_of(ms, result),
        result is Ok,
    ensures
        gives_all(ms, result),
{
    lemma_holds_all(ms, contents(result->Ok_0));
}

/// One array alone is given back.
pub proof fn one_array_is_given_back(m: ArrayModel, result: Result<AnyArray, ConcatError>)
    requires
        valid(m),
        result_of(seq![m], result),
    ensures
        gives_all(seq![m], result),
{
    if result is Ok {
        lemma_holds_all(seq![m], contents(result->Ok_0));
    }
}

// When concatenation succeeds

/// Arrays that hold no others are always concatenated, and so are structs and lists of them whose fields
/// take nulls, and structs and lists of those.
pub proof fn carefree_arrays_are_concatenated(
    ms: Seq<ArrayModel>,
    result: Result<AnyArray, ConcatError>,
)
    requires
        all_valid(ms),
        one_type(ms),
        ms.len() > 0,
        never_fails(ms[0].data_type),
        result_of(ms, result),
    ensures
        gives_all(ms, result),
{
    lemma_carefree(ms, result);
    success_gives_all(ms, result);
}

/// Arrays that hold no others, and structs and lists of them, do not fail.
pub proof fn lemma_carefree(ms: Seq<ArrayModel>, result: Result<AnyArray, ConcatError>)
    requires
        one_type(ms),
        ms.len() > 0,
        never_fails(ms[0].data_type),
        result_of(ms, result),
    ensures
        result is Ok,
{
    if let Err(error) = result {
        error_has_a_cause(ms[0].data_type, ms, error);
        lemma_never_fails(ms[0].data_type, ms, cause_of(error));
    }
}

/// Whether a slot that is not null holds this value.
pub open spec fn some_slot_holds(ms: Seq<ArrayModel>, value: Value) -> bool {
    exists|i: int, q: int|
        0 <= i < ms.len() && 0 <= q < ms[i].len && !null_at(ms[i], q) && #[trigger] row(ms[i], q)
            == value
}

/// Whether the slots that are not null hold more than `n` different values.
pub open spec fn more_values_than(ms: Seq<ArrayModel>, n: int) -> bool {
    exists|distinct: Seq<Value>|
        {
            &&& #[trigger] distinct.no_duplicates()
            &&& distinct.len() > n
            &&& forall|e: int|
                0 <= e < distinct.len() ==> some_slot_holds(ms, #[trigger] distinct[e])
        }
}

/// Whether an integer is the greatest of some.
pub open spec fn is_greatest(n: int, some: spec_fn(int) -> bool) -> bool {
    some(n) && forall|x: int| #[trigger] some(x) ==> x <= n
}

/// Keys and run ends go as far as the integers of their type: none of these is greater than the greatest
/// key or run end, and that is one of them.
pub proof fn keys_go_as_far_as_their_integers(t: TypeModel)
    requires
        t.fields.len() == 2,
    ensures
        match t.fields[0].data_type.shape {
            Shape::Primitive(Primitive::Int8) => is_greatest(
                index_max(t),
                |x: int| x as i8 == x,
            ),
            Shape::Primitive(Primitive::Int16) => is_greatest(
                index_max(t),
                |x: int| x as i16 == x,
            ),
            Shape::Primitive(Primitive::Int32) => is_greatest(
                index_max(t),
                |x: int| x as i32 == x,
            ),
            Shape::Primitive(Primitive::Int64) => is_greatest(
                index_max(t),
                |x: int| x as i64 == x,
            ),
            Shape::Primitive(Primitive::UInt8) => is_greatest(
                index_max(t),
                |x: int| x as u8 == x,
            ),
            Shape::Primitive(Primitive::UInt16) => is_greatest(
                index_max(t),
                |x: int| x as u16 == x,
            ),
            Shape::Primitive(Primitive::UInt32) => is_greatest(
                index_max(t),
                |x: int| x as u32 == x,
            ),
            Shape::Primitive(Primitive::UInt64) => is_greatest(
                index_max(t),
                |x: int| x as u64 == x,
            ),
            _ => index_max(t) < 0,
        },
{
}

/// Keys run out only where there are more values than keys: if values can be compared, more different
/// values in the slots, and otherwise more stored values.
pub proof fn keys_run_out_only_of_many_values(
    ms: Seq<ArrayModel>,
    result: Result<AnyArray, ConcatError>,
)
    requires
        all_valid(ms),
        one_type(ms),
        ms.len() > 0,
        ms[0].data_type.shape is Dictionary,
        never_fails(ms[0].data_type.fields[1].data_type),
        result_of(ms, result),
        result matches Err(ConcatError::DictionaryKeyOverflow),
    ensures
        ms.len() >= 2,
        slots(column_of(ms, 0)) > index_max(ms[0].data_type),
        ms[0].data_type.fields[1].data_type.shape is Bytes
            || ms[0].data_type.fields[1].data_type.shape is Primitive ==> more_values_than(
            ms,
            index_max(ms[0].data_type) + 1,
        ),
{
    let t = ms[0].data_type;
    let vs = column_of(ms, 0);
    assert(vs =~= child_models(ms, 0));
    lemma_slots(vs);
    let error = result->Err_0;
    if explained(t.fields[1].data_type, vs, error) {
        error_has_a_cause(t.fields[1].data_type, vs, error);
        lemma_never_fails(t.fields[1].data_type, vs, cause_of(error));
    }
    if crowded(ms, index_max(t)) {
        let distinct = choose|distinct: Seq<Value>|
            {
                &&& #[trigger] distinct.no_duplicates()
                &&& distinct.len() > index_max(t) + 1
                &&& forall|e: int| 0 <= e < distinct.len() ==> refers(ms, #[trigger] distinct[e])
            };
        assert forall|e: int| 0 <= e < distinct.len() implies some_slot_holds(
            ms,
            #[trigger] distinct[e],
        ) by {
            assert(refers(ms, distinct[e]));
        }
    }
}

/// Dictionaries whose values never fail are concatenated, however many there are, if keys can number all
/// their values, or else the different ones in their slots where values can be compared, and if their
/// values are within the limits themselves.
pub proof fn dictionaries_are_concatenated(
    ms: Seq<ArrayModel>,
    result: Result<AnyArray, ConcatError>,
)
    requires
        all_valid(ms),
        one_type(ms),
        ms.len() > 0,
        ms[0].data_type.shape is Dictionary,
        never_fails(ms[0].data_type.fields[1].data_type),
        in_limits(column_of(ms, 0)),
        slots(column_of(ms, 0)) <= index_max(ms[0].data_type) || {
            &&& ms[0].data_type.fields[1].data_type.shape is Bytes
                || ms[0].data_type.fields[1].data_type.shape is Primitive
            &&& !more_values_than(ms, index_max(ms[0].data_type) + 1)
        },
        result_of(ms, result),
    ensures
        gives_all(ms, result),
{
    let t = ms[0].data_type;
    let vs = column_of(ms, 0);
    lemma_values(ms);
    if let Err(error) = result {
        if error is DictionaryKeyOverflow {
            keys_run_out_only_of_many_values(ms, result);
        } else if explained(t.fields[1].data_type, vs, error) {
            error_has_a_cause(t.fields[1].data_type, vs, error);
            lemma_never_fails(t.fields[1].data_type, vs, cause_of(error));
        }
    } else {
        success_gives_all(ms, result);
    }
}

/// The values of dictionaries have one type.
pub proof fn lemma_values(ms: Seq<ArrayModel>)
    requires
        all_valid(ms),
        one_type(ms),
        ms.len() > 0,
        ms[0].data_type.shape is Dictionary,
    ensures
        column_of(ms, 0) == child_models(ms, 0),
        one_type(column_of(ms, 0)),
        all_valid(column_of(ms, 0)),
        column_of(ms, 0)[0].data_type == ms[0].data_type.fields[1].data_type,
{
    let t = ms[0].data_type;
    assert(column_of(ms, 0) =~= child_models(ms, 0));
    assert forall|i: int| 0 <= i < ms.len() implies valid(#[trigger] column_of(ms, 0)[i])
        && column_of(ms, 0)[i].data_type == t.fields[1].data_type by {
        assert(valid(ms[i]));
        assert(ms[i].data_type == t);
        assert(valid(ms[i].children[0]));
    }
}

/// Arrays that have rows have run values, an array each.
proof fn lemma_run_parts(ms: Seq<ArrayModel>, i: int)
    requires
        0 <= i < ms.len(),
        ms[i].len > 0,
    ensures
        run_models(ms).len() > 0,
    decreases ms.len(),
{
    if i < ms.len() - 1 {
        assert(ms.drop_last()[i] == ms[i]);
        lemma_run_parts(ms.drop_last(), i);
    }
}

/// Two arrays that have rows have two arrays of run values.
proof fn lemma_two_run_parts(ms: Seq<ArrayModel>, i: int, j: int)
    requires
        0 <= i < j < ms.len(),
        ms[i].len > 0,
        ms[j].len > 0,
    ensures
        run_models(ms).len() >= 2,
    decreases ms.len(),
{
    if j < ms.len() - 1 {
        assert(ms.drop_last()[i] == ms[i]);
        assert(ms.drop_last()[j] == ms[j]);
        lemma_two_run_parts(ms.drop_last(), i, j);
    } else {
        assert(ms.drop_last()[i] == ms[i]);
        lemma_run_parts(ms.drop_last(), i);
    }
}

/// Run-end encoded arrays are concatenated, however many there are, if one of them has a row, the field of
/// the run ends takes no null, and their values never fail and are plain.
pub proof fn runs_are_concatenated(
    ms: Seq<ArrayModel>,
    i: int,
    result: Result<AnyArray, ConcatError>,
)
    requires
        all_valid(ms),
        one_type(ms),
        0 <= i < ms.len(),
        ms[i].len > 0,
        ms[0].data_type.shape is Runs,
        !ms[0].data_type.fields[0].nullable,
        never_fails(ms[0].data_type.fields[1].data_type),
        plain(ms[0].data_type.fields[1].data_type),
        result_of(ms, result),
    ensures
        gives_all(ms, result),
{
    let t = ms[0].data_type;
    let values = run_models(ms);
    lemma_run_parts(ms, i);
    lemma_run_models(ms);
    if let Err(error) = result {
        if explained(t.fields[1].data_type, values, error) {
            error_has_a_cause(t.fields[1].data_type, values, error);
            lemma_never_fails(t.fields[1].data_type, values, cause_of(error));
        }
        assert forall|v: ArrayModel| #[trigger]
            run_values_of(t.fields[1].data_type, values, v) implies sturdy(v) by {
            lemma_plain(v);
        }
    } else {
        success_gives_all(ms, result);
    }
}

/// Run-end encoded arrays whose values, put together, are sturdy are concatenated if two of them have a
/// row: those of booleans, and of structs and lists of what never fails.
pub proof fn runs_of_many_kinds_are_concatenated(
    ms: Seq<ArrayModel>,
    i: int,
    j: int,
    result: Result<AnyArray, ConcatError>,
)
    requires
        in_limits(ms),
        one_type(ms),
        0 <= i < j < ms.len(),
        ms[i].len > 0,
        ms[j].len > 0,
        ms[0].data_type.shape is Runs,
        !ms[0].data_type.fields[0].nullable,
        never_fails(ms[0].data_type.fields[1].data_type),
        hardy(ms[0].data_type.fields[1].data_type),
        result_of(ms, result),
    ensures
        gives_all(ms, result),
{
    let t = ms[0].data_type;
    let values = run_models(ms);
    lemma_two_run_parts(ms, i, j);
    assert(valid(ms[0]));
    lemma_run_models(ms);
    if let Err(error) = result {
        if explained(t.fields[1].data_type, values, error) {
            error_has_a_cause(t.fields[1].data_type, values, error);
            lemma_never_fails(t.fields[1].data_type, values, cause_of(error));
        }
        run_values_are_accepted(t, ms);
    } else {
        success_gives_all(ms, result);
    }
}

/// Run-end encoded arrays fail for want of rows if and only if none has a row.
pub proof fn runs_without_rows_fail(ms: Seq<ArrayModel>, result: Result<AnyArray, ConcatError>)
    requires
        one_type(ms),
        ms.len() >= 2,
        ms[0].data_type.shape is Runs,
        ms[0].data_type.fields.len() == 2,
        result_of(ms, result),
        forall|i: int| 0 <= i < ms.len() ==> (#[trigger] ms[i]).len == 0,
    ensures
        result matches Err(ConcatError::Compute(text)),
{
    lemma_no_run_parts(ms);
    let t = ms[0].data_type;
    assert(refused(t, ms));
    let error = result->Err_0;
    assert(!explained(t.fields[1].data_type, run_models(ms), error));
}

/// Arrays without rows have no run values.
proof fn lemma_no_run_parts(ms: Seq<ArrayModel>)
    requires
        forall|i: int| 0 <= i < ms.len() ==> (#[trigger] ms[i]).len == 0,
    ensures
        run_models(ms).len() == 0,
    decreases ms.len(),
{
    if ms.len() > 0 {
        assert(ms[ms.len() - 1].len == 0);
        assert forall|i: int| 0 <= i < ms.drop_last().len() implies (
        #[trigger] ms.drop_last()[i]).len == 0 by {
            assert(ms.drop_last()[i] == ms[i]);
        }
        lemma_no_run_parts(ms.drop_last());
    }
}

/// Lists of what never fails are concatenated if their field takes nulls, or none of the items that their
/// offsets span is null.
pub proof fn lists_are_concatenated(ms: Seq<ArrayModel>, result: Result<AnyArray, ConcatError>)
    requires
        all_valid(ms),
        one_type(ms),
        ms.len() > 0,
        ms[0].data_type.shape is List,
        never_fails(ms[0].data_type.fields[0].data_type),
        ms[0].data_type.fields[0].nullable || {
            &&& ms[0].data_type.fields[0].data_type.shape !is Union
            &&& forall|i: int, k: int|
                0 <= i < ms.len() && 0 <= k < items_of(ms)[i].len ==> #[trigger] row(
                    items_of(ms)[i],
                    k,
                ) != Value::Null
        },
        result_of(ms, result),
    ensures
        gives_all(ms, result),
{
    let t = ms[0].data_type;
    let items = items_of(ms);
    assert(valid(ms[0]));
    lemma_used_type(ms);
    assert(items =~= used_models(ms));
    if let Err(error) = result {
        if explained(t.fields[0].data_type, items, error) {
            error_has_a_cause(t.fields[0].data_type, items, error);
            lemma_never_fails(t.fields[0].data_type, items, cause_of(error));
        }
        let i = choose|i: int| 0 <= i < items.len() && holds_null(#[trigger] items[i]);
        assert(valid(items[i]));
        assert(items[i].data_type == t.fields[0].data_type);
        if items[i].data_type.shape is Null {
            assert(row(items[i], 0) == Value::Null);
        } else {
            let bits = items[i].nulls->Some_0;
            let k = choose|k: int| 0 <= k < bits.len() && bits[k] == false;
            assert(row(items[i], k) == Value::Null);
        }
    } else {
        success_gives_all(ms, result);
    }
}

/// Structs of columns that never fail are concatenated if fields that take no null have none in slots that
/// are not null themselves.
pub proof fn structs_are_concatenated(ms: Seq<ArrayModel>, result: Result<AnyArray, ConcatError>)
    requires
        all_valid(ms),
        one_type(ms),
        ms.len() > 0,
        ms[0].data_type.shape is Struct,
        columns_typed(ms),
        forall|j: int|
            0 <= j < ms[0].data_type.fields.len() ==> {
                let field = #[trigger] ms[0].data_type.fields[j];
                never_fails(field.data_type) && (field.nullable || clear_nulls(field.data_type))
            },
        forall|i: int, j: int, k: int|
            0 <= i < ms.len() && 0 <= j < ms[0].data_type.fields.len() && 0 <= k < ms[i].len
                && !null_at(ms[i], k) && !ms[0].data_type.fields[j].nullable ==> !absent(
                #[trigger] row(ms[i].children[j], k),
            ),
        result_of(ms, result),
    ensures
        gives_all(ms, result),
{
    let t = ms[0].data_type;
    if let Err(error) = result {
        assert(ms.len() >= 2);
        if exists|j: int|
            0 <= j < t.fields.len() && explained(
                (#[trigger] t.fields[j]).data_type,
                child_models(ms, j),
                error,
            ) && columns_pass(t, ms, j) {
            let j = choose|j: int|
                0 <= j < t.fields.len() && explained(
                    (#[trigger] t.fields[j]).data_type,
                    child_models(ms, j),
                    error,
                ) && columns_pass(t, ms, j);
            assert(never_fails(t.fields[j].data_type));
            error_has_a_cause(t.fields[j].data_type, child_models(ms, j), error);
            lemma_never_fails(t.fields[j].data_type, child_models(ms, j), cause_of(error));
        } else {
            assert(!unclear_nulls(t));
            lemma_no_unmasked_null(ms);
        }
    } else {
        success_gives_all(ms, result);
    }
}

/// Where no slot has a null that it must not have, the joined columns have none.
proof fn lemma_no_unmasked_null(ms: Seq<ArrayModel>)
    requires
        all_valid(ms),
        one_type(ms),
        ms.len() > 0,
        ms[0].data_type.shape is Struct,
        forall|i: int, j: int, k: int|
            0 <= i < ms.len() && 0 <= j < ms[0].data_type.fields.len() && 0 <= k < ms[i].len
                && !null_at(ms[i], k) && !ms[0].data_type.fields[j].nullable ==> !absent(
                #[trigger] row(ms[i].children[j], k),
            ),
    ensures
        !unmasked_null(
            ms[0].data_type,
            joined_validity(ms),
            joined_columns(ms, ms[0].data_type.fields.len()),
        ),
{
    let t = ms[0].data_type;
    let bits = joined_validity(ms);
    let columns = joined_columns(ms, t.fields.len());
    lemma_joined_len(ms);
    if unmasked_null(t, bits, columns) {
        let (j, e) = choose|j: int, i: int|
            #![trigger columns[j][i]]
            {
                &&& 0 <= j < columns.len()
                &&& 0 <= i < bits.len()
                &&& !t.fields[j].nullable
                &&& clear_nulls(t.fields[j].data_type)
                &&& bits[i]
                &&& absent(columns[j][i])
            };
        let (p, q) = lemma_locate(ms, e);
        let m = ms[p];
        assert(valid(m));
        assert(m.data_type == t);
        lemma_validity_at(ms, p, q);
        lemma_null_at(m, q);
        let cs = child_models(ms, j);
        assert forall|i: int| 0 <= i < cs.len() implies valid(#[trigger] cs[i]) && cs[i].len
            == ms[i].len by {
            assert(valid(ms[i]));
            assert(ms[i].data_type == t);
            assert(valid(ms[i].children[j]));
        }
        lemma_same_lengths(cs.take(p), ms.take(p));
        lemma_joined_at(cs, p, q);
        assert(cs[p] == m.children[j]);
        assert(columns[j] == joined(cs));
        assert(!absent(row(m.children[j], q)));
    }
}

/// Arrays of the same lengths have as many slots.
proof fn lemma_same_lengths(a: Seq<ArrayModel>, b: Seq<ArrayModel>)
    requires
        a.len() == b.len(),
        forall|i: int| 0 <= i < a.len() ==> (#[trigger] a[i]).len == b[i].len,
    ensures
        total(a) == total(b),
    decreases a.len(),
{
    if a.len() > 0 {
        assert(a[a.len() - 1].len == b[a.len() - 1].len);
        assert forall|i: int| 0 <= i < a.drop_last().len() implies (
        #[trigger] a.drop_last()[i]).len == b.drop_last()[i].len by {
            assert(a.drop_last()[i] == a[i]);
        }
        lemma_same_lengths(a.drop_last(), b.drop_last());
    }
}

/// Lists that have a null item where the field takes none are refused.
pub proof fn lists_with_nulls_are_refused(
    ms: Seq<ArrayModel>,
    i: int,
    result: Result<AnyArray, ConcatError>,
)
    requires
        all_valid(ms),
        one_type(ms),
        ms.len() >= 2,
        ms[0].data_type.shape is List,
        !ms[0].data_type.fields[0].nullable,
        0 <= i < ms.len(),
        items_of(ms)[i].nulls is Some,
        result_of(ms, result),
    ensures
        result is Err,
{
    let items = items_of(ms);
    assert(valid(ms[0]));
    lemma_used_type(ms);
    assert(items =~= used_models(ms));
    lemma_joined_nulls(items);
    assert(refused(ms[0].data_type, ms));
}

/// Structs that have a null in a slot that is not null itself, where the field takes none, are refused.
pub proof fn structs_with_nulls_are_refused(
    ms: Seq<ArrayModel>,
    i: int,
    j: int,
    k: int,
    result: Result<AnyArray, ConcatError>,
)
    requires
        all_valid(ms),
        one_type(ms),
        ms.len() >= 2,
        ms[0].data_type.shape is Struct,
        0 <= i < ms.len(),
        0 <= j < ms[0].data_type.fields.len(),
        0 <= k < ms[i].len,
        !ms[0].data_type.fields[j].nullable,
        clear_nulls(ms[0].data_type.fields[j].data_type),
        !null_at(ms[i], k),
        absent(row(ms[i].children[j], k)),
        result_of(ms, result),
    ensures
        result is Err,
{
    let t = ms[0].data_type;
    let bits = joined_validity(ms);
    let columns = joined_columns(ms, t.fields.len());
    let cs = child_models(ms, j);
    assert forall|p: int| 0 <= p < cs.len() implies valid(#[trigger] cs[p]) && cs[p].len
        == ms[p].len by {
        assert(valid(ms[p]));
        assert(ms[p].data_type == t);
        assert(valid(ms[p].children[j]));
    }
    lemma_joined_len(ms);
    lemma_validity_at(ms, i, k);
    lemma_joined_at(ms, i, k);
    assert(valid(ms[i]));
    lemma_null_at(ms[i], k);
    lemma_same_lengths(cs.take(i), ms.take(i));
    assert(cs[i].len == ms[i].len);
    lemma_joined_at(cs, i, k);
    let e = total(ms.take(i)) + k;
    assert(absent(columns[j][e]));
    assert(unmasked_null(t, bits, columns));
    assert(refused(t, ms));
}

/// Whether slots of this shape are all of one width or bits, and can be copied as they are.
pub open spec fn simply_copied(shape: Shape) -> bool {
    match shape {
        Shape::Null => true,
        Shape::Boolean => true,
        Shape::Primitive(kind) => kind !is Interval,
        Shape::FixedBinary(_) => true,
        _ => false,
    }
}

/// Lists of fixed size whose items are of one width are concatenated, whatever nulls they hold, if their
/// items can be counted.
pub proof fn fixed_lists_of_flat_items_are_concatenated(
    ms: Seq<ArrayModel>,
    size: i32,
    result: Result<AnyArray, ConcatError>,
)
    requires
        all_valid(ms),
        one_type(ms),
        ms.len() > 0,
        ms[0].data_type.shape == Shape::FixedList(size),
        simply_copied(ms[0].data_type.fields[0].data_type.shape),
        slots(ms) <= usize::MAX,
        slots(fixed_items_of(ms, size as int)) <= usize::MAX,
        result_of(ms, result),
    ensures
        in_limits(ms),
        gives_all(ms, result),
{
    let t = ms[0].data_type;
    assert(valid(ms[0]));
    lemma_slots(ms);
    lemma_slots(fixed_items_of(ms, size as int));
    assert(fixed_items_of(ms, size as int) =~= fixed_models(ms, size as int));
    assert(sources_fit(t.fields[0].data_type, child_models(ms, 0)));
    assert(copies_fit(t.fields[0].data_type, fixed_models(ms, size as int)));
    assert(copyable(t, ms));
    if result is Ok {
        success_gives_all(ms, result);
    }
}

/// Maps whose keys and values are of one width are concatenated, whatever nulls they hold and claim to, if
/// offsets can number their entries.
pub proof fn maps_of_flat_entries_are_concatenated(
    ms: Seq<ArrayModel>,
    result: Result<AnyArray, ConcatError>,
)
    requires
        all_valid(ms),
        one_type(ms),
        ms.len() > 0,
        ms[0].data_type.shape is MapEntries,
        forall|j: int|
            0 <= j < ms[0].data_type.fields[0].data_type.fields.len() ==> simply_copied(
                (#[trigger] ms[0].data_type.fields[0].data_type.fields[j]).data_type.shape,
            ),
        columns_typed(column_of(ms, 0)),
        slots(ms) <= usize::MAX,
        slots(items_of(ms)) <= i32::MAX,
        result_of(ms, result),
    ensures
        in_limits(ms),
        gives_all(ms, result),
{
    let t = ms[0].data_type;
    let s = t.fields[0].data_type;
    let entries = column_of(ms, 0);
    let items = items_of(ms);
    assert(valid(ms[0]));
    lemma_slots(ms);
    lemma_slots(items);
    lemma_used_type(ms);
    assert(items =~= used_models(ms));
    assert(entries =~= child_models(ms, 0));
    assert forall|i: int| 0 <= i < ms.len() implies {
        &&& valid(#[trigger] entries[i])
        &&& entries[i].data_type == s
        &&& entries[i].children.len() == s.fields.len()
    } by {
        assert(valid(ms[i]));
        assert(ms[i].data_type == t);
        assert(valid(ms[i].children[0]));
    }
    assert(sources_fit(t, ms)) by {
        assert(typed_children(s, entries)) by {
            assert forall|i: int, j: int|
                0 <= i < entries.len() && 0 <= j < s.fields.len() implies (
            #[trigger] entries[i].children[j]).data_type == s.fields[j].data_type by {}
        }
        assert forall|j: int| 0 <= j < s.fields.len() implies sources_fit(
            (#[trigger] s.fields[j]).data_type,
            child_models(entries, j),
        ) by {}
        assert(sources_fit(s, entries));
    }
    assert(copies_fit(t, ms)) by {
        assert forall|i: int| 0 <= i < items.len() implies {
            &&& valid(#[trigger] items[i])
            &&& items[i].data_type == s
            &&& items[i].children.len() == s.fields.len()
        } by {
            assert(items[i].data_type == items[0].data_type);
            assert(valid(used_models(ms)[i]));
        }
        assert(typed_children(s, items)) by {
            assert forall|i: int, j: int| 0 <= i < items.len() && 0 <= j < s.fields.len() implies (
            #[trigger] items[i].children[j]).data_type == s.fields[j].data_type by {
                let m = ms[i];
                assert(entries[i].children[j].data_type == s.fields[j].data_type);
                assert(entries[i].data_type == s);
                assert(items[i].children[j] == sliced(
                    entries[i].children[j],
                    m.offsets[0],
                    m.offsets.last() - m.offsets[0],
                ));
            }
        }
        assert forall|j: int| 0 <= j < s.fields.len() implies copies_fit(
            (#[trigger] s.fields[j]).data_type,
            child_models(items, j),
        ) by {
            let cs = child_models(items, j);
            assert forall|i: int| 0 <= i < cs.len() implies (#[trigger] cs[i]).len
                == items[i].len by {
                assert(valid(items[i]));
            }
            lemma_same_lengths(cs, items);
        }
        assert(copies_fit(s, items));
    }
    if result is Ok {
        success_gives_all(ms, result);
    }
}

/// A dense union refers to no more slots of a child than it has itself.
proof fn lemma_picked_few(m: ArrayModel, j: int, n: int)
    requires
        0 <= n,
    ensures
        total(picked(m, j, n)) <= n,
    decreases n,
{
    if n > 0 {
        lemma_picked_few(m, j, n - 1);
        if m.ints[n - 1] == j {
            let before = picked(m, j, n - 1);
            assert(picked(m, j, n).drop_last() =~= before);
        }
    }
}

/// Dense unions refer to no more slots of a child than they have themselves.
proof fn lemma_picks_few(ms: Seq<ArrayModel>, j: int)
    ensures
        total(picked_models(ms, j)) <= total(ms),
    decreases ms.len(),
{
    if ms.len() > 0 {
        lemma_picks_few(ms.drop_last(), j);
        lemma_picked_few(ms.last(), j, ms.last().len as int);
        joined_is_additive(
            picked_models(ms.drop_last(), j),
            picked(ms.last(), j, ms.last().len as int),
        );
    }
}

/// Unions whose children hold slots of one width are concatenated if their slots can be counted, and
/// numbered by offsets if they are dense.
pub proof fn unions_of_flat_children_are_concatenated(
    ms: Seq<ArrayModel>,
    result: Result<AnyArray, ConcatError>,
)
    requires
        all_valid(ms),
        one_type(ms),
        ms.len() > 0,
        ms[0].data_type.shape is Union,
        columns_typed(ms),
        forall|j: int|
            0 <= j < ms[0].data_type.fields.len() ==> simply_copied(
                (#[trigger] ms[0].data_type.fields[j]).data_type.shape,
            ),
        slots(ms) <= usize::MAX,
        ms[0].data_type.shape == (Shape::Union { dense: true }) ==> slots(ms) <= i32::MAX,
        result_of(ms, result),
    ensures
        in_limits(ms),
        gives_all(ms, result),
{
    let t = ms[0].data_type;
    let dense = t.shape == (Shape::Union { dense: true });
    lemma_slots(ms);
    assert(typed_children(t, ms));
    assert(sources_fit(t, ms)) by {
        assert forall|j: int| 0 <= j < t.fields.len() implies sources_fit(
            (#[trigger] t.fields[j]).data_type,
            child_models(ms, j),
        ) by {}
    }
    assert forall|j: int| 0 <= j < t.fields.len() implies {
        let ft = (#[trigger] t.fields[j]).data_type;
        if dense {
            total(picked_models(ms, j)) <= i32::MAX + 1 && copies_fit(ft, picked_models(ms, j))
        } else {
            copies_fit(ft, child_models(ms, j))
        }
    } by {
        if dense {
            lemma_picks_few(ms, j);
        } else {
            let cs = child_models(ms, j);
            assert forall|i: int| 0 <= i < cs.len() implies (#[trigger] cs[i]).len
                == ms[i].len by {
                assert(valid(ms[i]));
                assert(ms[i].data_type == t);
            }
            lemma_same_lengths(cs, ms);
        }
    }
    assert(copies_fit(t, ms));
    if result is Ok {
        success_gives_all(ms, result);
    }
}

// What an error tells

/// An error that explains the parts of arrays is one that concatenating the parts may give.
proof fn lemma_part_error(t: TypeModel, parts: Seq<ArrayModel>, error: ConcatError)
    requires
        explained(t, parts, error),
        forall|i: int| 0 <= i < parts.len() ==> (#[trigger] parts[i]).data_type == t,
    ensures
        result_of(parts, Err(error)),
{
    assert(one_type(parts));
}

/// Lists fail as their items do, or because Arrow refuses items that are null, or may be, where the field
/// takes no null.
pub proof fn lists_fail_as_their_items_do(ms: Seq<ArrayModel>, error: ConcatError)
    requires
        all_valid(ms),
        one_type(ms),
        ms.len() > 0,
        ms[0].data_type.shape is List,
        result_of(ms, Err(error)),
    ensures
        ms.len() >= 2,
        result_of(items_of(ms), Err(error)) || {
            let field = ms[0].data_type.fields[0];
            &&& error is Arrow
            &&& !field.nullable
            &&& field.data_type.shape is Dictionary || field.data_type.shape is Runs
                || field.data_type.shape is Union || exists|i: int, k: int|
                0 <= i < ms.len() && 0 <= k < items_of(ms)[i].len && #[trigger] row(
                    items_of(ms)[i],
                    k,
                ) == Value::Null
        },
{
    let t = ms[0].data_type;
    let items = items_of(ms);
    assert(valid(ms[0]));
    lemma_used_type(ms);
    assert(items =~= used_models(ms));
    assert forall|i: int| 0 <= i < items.len() implies (#[trigger] items[i]).data_type
        == t.fields[0].data_type by {
        assert(items[i].data_type == items[0].data_type);
    }
    if explained(t.fields[0].data_type, items, error) {
        lemma_part_error(t.fields[0].data_type, items, error);
    } else {
        let i = choose|i: int| 0 <= i < items.len() && holds_null(#[trigger] items[i]);
        lemma_held_null(items[i]);
    }
}

/// An array that holds a null has a null row, unless it refers to other arrays.
proof fn lemma_held_null(m: ArrayModel)
    requires
        valid(m),
        holds_null(m),
    ensures
        m.data_type.shape is Dictionary || m.data_type.shape is Runs || m.data_type.shape is Union
            || exists|k: int| 0 <= k < m.len && #[trigger] row(m, k) == Value::Null,
{
    if m.data_type.shape is Null {
        assert(row(m, 0) == Value::Null);
    } else if m.nulls is Some {
        let bits = m.nulls->Some_0;
        let k = choose|k: int| 0 <= k < bits.len() && bits[k] == false;
        assert(row(m, k) == Value::Null);
    }
}

/// Structs fail as one of their columns does, or because Arrow refuses columns that have a null where
/// the field takes none, or may have.
pub proof fn structs_fail_as_their_columns_do(ms: Seq<ArrayModel>, error: ConcatError)
    requires
        all_valid(ms),
        one_type(ms),
        ms.len() > 0,
        ms[0].data_type.shape is Struct,
        columns_typed(ms),
        result_of(ms, Err(error)),
    ensures
        ms.len() >= 2,
        (exists|j: int|
            0 <= j < ms[0].data_type.fields.len() && #[trigger] result_of(
                column_of(ms, j),
                Err(error),
            )) || {
            &&& error is Arrow
            &&& exists|j: int|
                0 <= j < ms[0].data_type.fields.len() && !(
                #[trigger] ms[0].data_type.fields[j]).nullable && (!clear_nulls(
                    ms[0].data_type.fields[j].data_type,
                ) || exists|i: int, k: int|
                    0 <= i < ms.len() && 0 <= k < ms[i].len && !null_at(ms[i], k) && absent(
                        #[trigger] row(ms[i].children[j], k),
                    ))
        },
{
    let t = ms[0].data_type;
    if exists|j: int|
        0 <= j < t.fields.len() && explained(
            (#[trigger] t.fields[j]).data_type,
            child_models(ms, j),
            error,
        ) && columns_pass(t, ms, j) {
        let j = choose|j: int|
            0 <= j < t.fields.len() && explained(
                (#[trigger] t.fields[j]).data_type,
                child_models(ms, j),
                error,
            ) && columns_pass(t, ms, j);
        lemma_column(ms, j);
        assert forall|i: int| 0 <= i < ms.len() implies (#[trigger] column_of(ms, j)[i]).data_type
            == t.fields[j].data_type by {
            assert(column_of(ms, j)[i].data_type == column_of(ms, j)[0].data_type);
        }
        lemma_part_error(t.fields[j].data_type, column_of(ms, j), error);
    } else if unclear_nulls(t) {
        let j = choose|j: int|
            0 <= j < t.fields.len() && !(#[trigger] t.fields[j]).nullable && !clear_nulls(
                t.fields[j].data_type,
            );
        assert(!t.fields[j].nullable);
    } else {
        if forall|i: int, j: int, k: int|
            0 <= i < ms.len() && 0 <= j < t.fields.len() && 0 <= k < ms[i].len && !null_at(
                ms[i],
                k,
            ) && !t.fields[j].nullable ==> !absent(#[trigger] row(ms[i].children[j], k)) {
            lemma_no_unmasked_null(ms);
        } else {
            let (i, j, k) = choose|i: int, j: int, k: int|
                0 <= i < ms.len() && 0 <= j < t.fields.len() && 0 <= k < ms[i].len && !null_at(
                    ms[i],
                    k,
                ) && !t.fields[j].nullable && absent(#[trigger] row(ms[i].children[j], k));
            assert(!t.fields[j].nullable);
        }
    }
}

/// Lists of fixed size fail as their items do, or because Arrow refuses items where the field takes no
/// null and one is null, or may be.
pub proof fn fixed_lists_fail_as_their_items_do(
    ms: Seq<ArrayModel>,
    size: i32,
    error: ConcatError,
)
    requires
        all_valid(ms),
        one_type(ms),
        ms.len() > 0,
        ms[0].data_type.shape == Shape::FixedList(size),
        result_of(ms, Err(error)),
    ensures
        ms.len() >= 2,
        result_of(fixed_items_of(ms, size as int), Err(error)) || {
            let field = ms[0].data_type.fields[0];
            &&& error is Arrow
            &&& !field.nullable
            &&& !clear_nulls(field.data_type) || exists|i: int, k: int|
                0 <= i < ms.len() && 0 <= k < fixed_items_of(ms, size as int)[i].len && absent(
                    #[trigger] row(fixed_items_of(ms, size as int)[i], k),
                )
        },
{
    let n = size as int;
    let t = ms[0].data_type;
    let items = fixed_items_of(ms, n);
    assert(valid(ms[0]));
    assert(items =~= fixed_models(ms, n));
    assert forall|i: int| 0 <= i < ms.len() implies (#[trigger] ms[i]).data_type == t by {}
    assert(valid_of_type(t, ms));
    lemma_fixed_of_type(t, ms, size);
    if explained(t.fields[0].data_type, items, error) {
        lemma_part_error(t.fields[0].data_type, items, error);
    } else if clear_nulls(t.fields[0].data_type) {
        let bits = joined_validity(ms);
        let values = joined(items);
        lemma_fixed_join(ms, size);
        lemma_joined_len(items);
        lemma_joined_len(ms);
        let (i, k) = choose|i: int, k: int|
            #![trigger values[i * n + k]]
            0 <= i < bits.len() && 0 <= k < n && bits[i] && absent(values[i * n + k]);
        assert(0 <= i * n + k < bits.len() * n) by (nonlinear_arith)
            requires
                0 <= i < bits.len(),
                0 <= k < n,
        ;
        let (p, q) = lemma_locate(items, i * n + k);
        lemma_joined_at(items, p, q);
        assert(absent(row(items[p], q)));
    }
}

/// Maps fail as their entries do, or because Arrow refuses entries that are null, or whose field claims
/// that they may be.
pub proof fn maps_fail_as_their_entries_do(ms: Seq<ArrayModel>, error: ConcatError)
    requires
        all_valid(ms),
        one_type(ms),
        ms.len() > 0,
        ms[0].data_type.shape is MapEntries,
        result_of(ms, Err(error)),
    ensures
        ms.len() >= 2,
        result_of(items_of(ms), Err(error)) || {
            &&& error is Arrow
            &&& ms[0].data_type.fields[0].nullable || exists|i: int|
                0 <= i < ms.len() && (#[trigger] items_of(ms)[i]).nulls is Some
        },
{
    let t = ms[0].data_type;
    let items = items_of(ms);
    assert(valid(ms[0]));
    lemma_used_type(ms);
    assert(items =~= used_models(ms));
    assert forall|i: int| 0 <= i < items.len() implies (#[trigger] items[i]).data_type
        == t.fields[0].data_type by {
        assert(items[i].data_type == items[0].data_type);
    }
    if explained(t.fields[0].data_type, items, error) {
        lemma_part_error(t.fields[0].data_type, items, error);
    } else {
        lemma_joined_nulls(items);
    }
}

/// Unions fail as one of their children does.
pub proof fn unions_fail_as_their_children_do(ms: Seq<ArrayModel>, error: ConcatError)
    requires
        all_valid(ms),
        one_type(ms),
        ms.len() > 0,
        ms[0].data_type.shape is Union,
        columns_typed(ms),
        result_of(ms, Err(error)),
    ensures
        ms.len() >= 2,
        exists|j: int|
            0 <= j < ms[0].data_type.fields.len() && #[trigger] result_of(
                column_of(ms, j),
                Err(error),
            ),
{
    let t = ms[0].data_type;
    let j = choose|j: int|
        0 <= j < t.fields.len() && explained(
            (#[trigger] t.fields[j]).data_type,
            child_models(ms, j),
            error,
        ) && columns_pass(t, ms, j);
    lemma_column(ms, j);
    assert forall|i: int| 0 <= i < ms.len() implies (#[trigger] column_of(ms, j)[i]).data_type
        == t.fields[j].data_type by {
        assert(column_of(ms, j)[i].data_type == column_of(ms, j)[0].data_type);
    }
    lemma_part_error(t.fields[j].data_type, column_of(ms, j), error);
}

/// Run-end encoded arrays fail for want of rows, as their values do, or because Arrow refuses the run ends
/// or the values: a field of run ends that takes nulls, or values that are not plain.
pub proof fn runs_fail_as_their_values_do(ms: Seq<ArrayModel>, error: ConcatError)
    requires
        all_valid(ms),
        one_type(ms),
        ms.len() > 0,
        ms[0].data_type.shape is Runs,
        result_of(ms, Err(error)),
    ensures
        ms.len() >= 2,
        ({
            ||| error is Compute && forall|i: int| 0 <= i < ms.len() ==> (#[trigger] ms[i]).len == 0
            ||| result_of(run_models(ms), Err(error))
            ||| error is Arrow && (ms[0].data_type.fields[0].nullable || !plain(
                ms[0].data_type.fields[1].data_type,
            ))
        }),
{
    let t = ms[0].data_type;
    let values = run_models(ms);
    lemma_run_models(ms);
    assert forall|i: int| 0 <= i < values.len() implies (#[trigger] values[i]).data_type
        == t.fields[1].data_type by {
        assert(values[i].data_type == values[0].data_type);
    }
    if explained(t.fields[1].data_type, values, error) {
        lemma_part_error(t.fields[1].data_type, values, error);
    } else if values.len() == 0 {
        assert forall|i: int| 0 <= i < ms.len() implies (#[trigger] ms[i]).len == 0 by {
            if ms[i].len > 0 {
                lemma_run_parts(ms, i);
            }
        }
    } else if plain(t.fields[1].data_type) {
        assert forall|v: ArrayModel| #[trigger]
            run_values_of(t.fields[1].data_type, values, v) implies sturdy(v) by {
            assert(values[0].data_type == t.fields[1].data_type);
            lemma_plain(v);
        }
    }
}

/// Dictionaries fail because keys cannot number their values, because their values are not within the
/// limits, or as their values do.
pub proof fn dictionaries_fail_as_their_values_do(ms: Seq<ArrayModel>, error: ConcatError)
    requires
        all_valid(ms),
        one_type(ms),
        ms.len() > 0,
        ms[0].data_type.shape is Dictionary,
        result_of(ms, Err(error)),
    ensures
        ms.len() >= 2,
        ({
            ||| error is DictionaryKeyOverflow && slots(column_of(ms, 0)) > index_max(
                ms[0].data_type,
            )
            ||| error is DictionaryValueOverflow && !in_limits(column_of(ms, 0))
            ||| result_of(column_of(ms, 0), Err(error))
        }),
{
    let t = ms[0].data_type;
    let vs = column_of(ms, 0);
    lemma_values(ms);
    lemma_slots(vs);
    if explained(t.fields[1].data_type, vs, error) {
        assert forall|i: int| 0 <= i < vs.len() implies (#[trigger] vs[i]).data_type
            == t.fields[1].data_type by {
            assert(vs[i].data_type == vs[0].data_type);
        }
        lemma_part_error(t.fields[1].data_type, vs, error);
    }
}

/// Whether a type is or holds one for which `is` holds.
pub open spec fn holds_type(t: TypeModel, is: spec_fn(TypeModel) -> bool) -> bool
    decreases t,
{
    is(t) || exists|j: int|
        0 <= j < t.fields.len() && holds_type((#[trigger] t.fields[j]).data_type, is)
}

/// What the error of arrays of type `t` tells of the type: rows are missing only of runs, keys and values
/// overflow only in dictionaries, and Arrow refuses only runs, maps, or nulls that a field does not take.
pub open spec fn error_suits(t: TypeModel, error: ConcatError) -> bool {
    match error {
        ConcatError::Compute(text) => {
            &&& text@ == "concat requires input of at least one array"@
            &&& holds_type(t, |t: TypeModel| t.shape is Runs)
        },
        ConcatError::InvalidArgument(_) => false,
        ConcatError::DictionaryKeyOverflow => holds_type(t, |t: TypeModel| t.shape is Dictionary),
        ConcatError::DictionaryValueOverflow => holds_type(
            t,
            |t: TypeModel| t.shape is Dictionary,
        ),
        ConcatError::Arrow(_) => holds_type(
            t,
            |t: TypeModel|
                t.shape is Runs || t.shape is MapEntries || exists|j: int|
                    0 <= j < t.fields.len() && !(#[trigger] t.fields[j]).nullable,
        ),
    }
}

/// An error that suits a field suits the whole.
proof fn lemma_suits(t: TypeModel, j: int, error: ConcatError)
    requires
        0 <= j < t.fields.len(),
        error_suits(t.fields[j].data_type, error),
    ensures
        error_suits(t, error),
{
    let field = t.fields[j];
}

/// Every error that is explained suits the type.
proof fn lemma_error_suits(t: TypeModel, ms: Seq<ArrayModel>, error: ConcatError)
    requires
        explained(t, ms, error),
    ensures
        error_suits(t, error),
    decreases t,
{
    match t.shape {
        Shape::List { .. } => {
            if explained(t.fields[0].data_type, used_models(ms), error) {
                lemma_error_suits(t.fields[0].data_type, used_models(ms), error);
                lemma_suits(t, 0, error);
            } else {
                assert(!t.fields[0].nullable);
            }
        },
        Shape::FixedList(size) => {
            if explained(t.fields[0].data_type, fixed_models(ms, size as int), error) {
                lemma_error_suits(t.fields[0].data_type, fixed_models(ms, size as int), error);
                lemma_suits(t, 0, error);
            } else {
                assert(!t.fields[0].nullable);
            }
        },
        Shape::MapEntries => {
            if explained(t.fields[0].data_type, used_models(ms), error) {
                lemma_error_suits(t.fields[0].data_type, used_models(ms), error);
                lemma_suits(t, 0, error);
            }
        },
        Shape::Runs => {
            if explained(t.fields[1].data_type, run_models(ms), error) {
                lemma_error_suits(t.fields[1].data_type, run_models(ms), error);
                lemma_suits(t, 1, error);
            }
        },
        Shape::Dictionary => {
            if explained(t.fields[1].data_type, child_models(ms, 0), error) {
                lemma_error_suits(t.fields[1].data_type, child_models(ms, 0), error);
                lemma_suits(t, 1, error);
            }
        },
        Shape::Struct => {
            if exists|j: int|
                0 <= j < t.fields.len() && explained(
                    (#[trigger] t.fields[j]).data_type,
                    child_models(ms, j),
                    error,
                ) && columns_pass(t, ms, j) {
                let j = choose|j: int|
                    0 <= j < t.fields.len() && explained(
                        (#[trigger] t.fields[j]).data_type,
                        child_models(ms, j),
                        error,
                    ) && columns_pass(t, ms, j);
                lemma_error_suits(t.fields[j].data_type, child_models(ms, j), error);
                lemma_suits(t, j, error);
            } else if unclear_nulls(t) {
                let j = choose|j: int|
                    0 <= j < t.fields.len() && !(#[trigger] t.fields[j]).nullable && !clear_nulls(
                        t.fields[j].data_type,
                    );
                assert(!t.fields[j].nullable);
            } else {
                let bits = joined_validity(ms);
                let columns = joined_columns(ms, t.fields.len());
                let (j, i) = choose|j: int, i: int|
                    #![trigger columns[j][i]]
                    {
                        &&& 0 <= j < columns.len()
                        &&& 0 <= i < bits.len()
                        &&& !t.fields[j].nullable
                        &&& clear_nulls(t.fields[j].data_type)
                        &&& bits[i]
                        &&& absent(columns[j][i])
                    };
                assert(!t.fields[j].nullable);
            }
        },
        Shape::Union { .. } => {
            let j = choose|j: int|
                0 <= j < t.fields.len() && explained(
                    (#[trigger] t.fields[j]).data_type,
                    child_models(ms, j),
                    error,
                ) && columns_pass(t, ms, j);
            lemma_error_suits(t.fields[j].data_type, child_models(ms, j), error);
            lemma_suits(t, j, error);
        },
        _ => {},
    }
}

/// The kind of an error: no array at all is an error of its own, types that differ are told if and only if
/// they do, and every other error suits the type.
pub proof fn errors_suit_the_type(ms: Seq<ArrayModel>, error: ConcatError)
    requires
        result_of(ms, Err(error)),
    ensures
        ms.len() == 0 ==> (error matches ConcatError::Compute(text) && text@
            == "concat requires input of at least one array"@),
        error is InvalidArgument <==> ms.len() >= 2 && !one_type(ms),
        ms.len() > 0 && one_type(ms) ==> error_suits(ms[0].data_type, error),
{
    if ms.len() > 0 && one_type(ms) {
        lemma_error_suits(ms[0].data_type, ms, error);
    }
}

/// Arrays of different types, and no array at all, are always refused.
pub proof fn different_types_are_refused(
    ms: Seq<ArrayModel>,
    result: Result<AnyArray, ConcatError>,
)
    requires
        ms.len() == 0 || !one_type(ms),
        result_of(ms, result),
    ensures
        result is Err,
{
}

} // verus!

//! What callers can rely on of batches, of the test of arrays, of empty batches, and of the words for
//! arrays of different types.
use vstd::prelude::*;

use crate::batches::{
    batches_in_limits, batches_result, column_models, columns_before, first_failure, rows_total,
};
use crate::capacity::room;
use crate::concat::{in_limits, mixed, result_of, texts_of, types_of};
use crate::error::ConcatError;
use crate::joins::{all_valid, lemma_joined_nulls, one_type};
use crate::laws::never_fails;
use crate::mismatch::{firsts, listing, mismatch_text};
use crate::model::{integer_max, joined_nulls, sound, valid, ArrayModel, Shape, TypeModel};
use crate::outside::{printable, type_text, AnyArray, Hint};
use crate::promises::{
    holds_all, lemma_carefree, lemma_holds_all, lemma_slots, lemma_spanned, slots, spanned,
};
use crate::records::{
    batch_contents, child_slots, emptiable, makeable, Batch, BatchModel, SchemaModel,
};

verus! {

// Batches

/// The number of rows of the batches together, counted from the first on.
pub open spec fn rows_of(bs: Seq<BatchModel>) -> nat
    decreases bs.len(),
{
    if bs.len() == 0 {
        0
    } else {
        bs[0].len + rows_of(bs.drop_first())
    }
}

/// Rows are counted the same way for batches with columns and without: those of two groups of batches
/// together are those of the first and those of the second, and those of one batch are its own.
pub proof fn rows_add_up(a: Seq<BatchModel>, b: Seq<BatchModel>, x: BatchModel)
    ensures
        rows_total(a + b) == rows_total(a) + rows_total(b),
        rows_total(seq![x]) == x.len,
        rows_total(Seq::<BatchModel>::empty()) == 0,
    decreases b.len(),
{
    reveal_with_fuel(rows_total, 2);
    assert(seq![x].drop_last() =~= Seq::empty());
    if b.len() == 0 {
        assert(a + b =~= a);
    } else {
        assert((a + b).drop_last() =~= a + b.drop_last());
        assert((a + b).last() == b.last());
        rows_add_up(a, b.drop_last(), x);
    }
}

/// Rows counted from either end are as many.
pub proof fn lemma_rows_of(bs: Seq<BatchModel>)
    ensures
        rows_of(bs) == rows_total(bs),
    decreases bs.len(),
{
    if bs.len() > 0 {
        lemma_rows_of(bs.drop_first());
        rows_add_up(seq![bs[0]], bs.drop_first(), bs[0]);
        assert(seq![bs[0]] + bs.drop_first() =~= bs);
    }
}

/// Under a schema without fields, the rows of all batches are counted, however many there are.
pub proof fn rows_without_columns_are_counted(
    schema: SchemaModel,
    bs: Seq<BatchModel>,
    result: Result<Batch, ConcatError>,
)
    requires
        schema.fields.len() == 0,
        batches_result(schema, bs, result),
    ensures
        result is Ok,
        batch_contents(result->Ok_0).schema == schema,
        batch_contents(result->Ok_0).columns.len() == 0,
        batch_contents(result->Ok_0).len == rows_of(bs),
{
    lemma_rows_of(bs);
}

/// No batch at all gives a batch of the schema without rows.
pub proof fn no_batch_gives_an_empty_one(
    schema: SchemaModel,
    result: Result<Batch, ConcatError>,
    i: int,
)
    requires
        0 <= i < schema.fields.len(),
        batches_result(schema, Seq::empty(), result),
    ensures
        result is Ok,
        batch_contents(result->Ok_0).schema == schema,
        batch_contents(result->Ok_0).len == 0,
        batch_contents(result->Ok_0).columns.len() == schema.fields.len(),
        batch_contents(result->Ok_0).columns[i].len == 0,
        batch_contents(result->Ok_0).columns[i].data_type == schema.fields[i].data_type,
{
    let column = batch_contents(result->Ok_0).columns[i];
}

/// Column `i` of each batch.
pub open spec fn columns_at(bs: Seq<BatchModel>, i: int) -> Seq<ArrayModel> {
    Seq::new(bs.len(), |k: int| bs[k].columns[i])
}

/// Each column of concatenated batches holds that column of all batches.
pub proof fn columns_hold_all(
    schema: SchemaModel,
    bs: Seq<BatchModel>,
    result: Result<Batch, ConcatError>,
    i: int,
)
    requires
        bs.len() > 0,
        0 <= i < schema.fields.len(),
        all_valid(columns_at(bs, i)),
        batches_result(schema, bs, result),
        result is Ok,
    ensures
        batch_contents(result->Ok_0).schema == schema,
        batch_contents(result->Ok_0).len == rows_of(bs),
        batch_contents(result->Ok_0).columns.len() == schema.fields.len(),
        holds_all(columns_at(bs, i), batch_contents(result->Ok_0).columns[i]),
{
    let column = batch_contents(result->Ok_0).columns[i];
    lemma_rows_of(bs);
    assert(columns_at(bs, i) =~= column_models(bs, i));
    lemma_holds_all(columns_at(bs, i), column);
}

/// Whether the columns of batches suit the `i`-th field of a schema: each has its type, and none a null if
/// the field takes none.
pub open spec fn columns_suit(schema: SchemaModel, bs: Seq<BatchModel>, i: int) -> bool {
    forall|k: int|
        0 <= k < bs.len() ==> {
            let column = (#[trigger] bs[k]).columns[i];
            &&& valid(column)
            &&& column.data_type == schema.fields[i].data_type
            &&& schema.fields[i].nullable || column.nulls is None
        }
}

/// Columns that suit a field are arrays of its type.
pub proof fn lemma_columns_suit(schema: SchemaModel, bs: Seq<BatchModel>, i: int)
    requires
        columns_suit(schema, bs, i),
    ensures
        columns_at(bs, i) == column_models(bs, i),
        all_valid(columns_at(bs, i)),
        one_type(columns_at(bs, i)),
        bs.len() > 0 ==> columns_at(bs, i)[0].data_type == schema.fields[i].data_type,
        schema.fields[i].nullable || joined_nulls(columns_at(bs, i)) is None,
{
    let cs = columns_at(bs, i);
    assert(cs =~= column_models(bs, i));
    assert forall|k: int| 0 <= k < cs.len() implies {
        &&& valid(#[trigger] cs[k])
        &&& cs[k].data_type == schema.fields[i].data_type
        &&& schema.fields[i].nullable || cs[k].nulls is None
    } by {
        assert(bs[k].columns[i] == cs[k]);
    }
    lemma_joined_nulls(cs);
}

/// Batches whose columns suit the schema and never fail are concatenated, however many there are.
pub proof fn suited_batches_are_concatenated(
    schema: SchemaModel,
    bs: Seq<BatchModel>,
    result: Result<Batch, ConcatError>,
)
    requires
        bs.len() > 0,
        schema.fields.len() > 0,
        forall|i: int|
            0 <= i < schema.fields.len() ==> never_fails((#[trigger] schema.fields[i]).data_type)
                && columns_suit(schema, bs, i),
        batches_result(schema, bs, result),
    ensures
        result is Ok,
{
    if let Err(error) = result {
        if exists|i: int| 0 <= i < schema.fields.len() && #[trigger] first_failure(bs, i, error) {
            let i = choose|i: int|
                0 <= i < schema.fields.len() && #[trigger] first_failure(bs, i, error);
            let field = schema.fields[i];
            lemma_columns_suit(schema, bs, i);
            lemma_carefree(columns_at(bs, i), Err(error));
        } else {
            let i = choose|i: int|
                0 <= i < schema.fields.len() && {
                    ||| (#[trigger] schema.fields[i]).data_type != bs[0].columns[i].data_type
                    ||| !schema.fields[i].nullable && joined_nulls(column_models(bs, i)) is Some
                };
            let field = schema.fields[i];
            lemma_columns_suit(schema, bs, i);
            assert(columns_at(bs, i)[0] == bs[0].columns[i]);
        }
    }
}

/// Batches fail as one of their columns does, or because Arrow refuses columns that do not suit the schema:
/// the type of a field differs, or one that takes no null has one.
pub proof fn batches_fail_as_their_columns_do(
    schema: SchemaModel,
    bs: Seq<BatchModel>,
    error: ConcatError,
)
    requires
        batches_result(schema, bs, Err(error)),
        forall|i: int| 0 <= i < schema.fields.len() ==> all_valid(#[trigger] columns_at(bs, i)),
    ensures
        bs.len() > 0,
        schema.fields.len() > 0,
        (exists|i: int|
            0 <= i < schema.fields.len() && #[trigger] result_of(columns_at(bs, i), Err(error)))
            || {
            &&& error is Arrow
            &&& exists|i: int|
                0 <= i < schema.fields.len() && {
                    ||| (#[trigger] schema.fields[i]).data_type != bs[0].columns[i].data_type
                    ||| !schema.fields[i].nullable && exists|k: int|
                        0 <= k < bs.len() && (#[trigger] bs[k]).columns[i].nulls is Some
                }
        },
{
    if exists|i: int| 0 <= i < schema.fields.len() && #[trigger] first_failure(bs, i, error) {
        let i = choose|i: int|
            0 <= i < schema.fields.len() && #[trigger] first_failure(bs, i, error);
        assert(columns_at(bs, i) =~= column_models(bs, i));
        assert(result_of(columns_at(bs, i), Err(error)));
    } else {
        let i = choose|i: int|
            0 <= i < schema.fields.len() && {
                ||| (#[trigger] schema.fields[i]).data_type != bs[0].columns[i].data_type
                ||| !schema.fields[i].nullable && joined_nulls(column_models(bs, i)) is Some
            };
        let field = schema.fields[i];
        let cs = columns_at(bs, i);
        assert(cs =~= column_models(bs, i));
        if field.data_type == bs[0].columns[i].data_type {
            lemma_joined_nulls(cs);
            let k = choose|k: int| 0 <= k < cs.len() && (#[trigger] cs[k]).nulls is Some;
            assert(bs[k].columns[i].nulls is Some);
        }
    }
}

/// Batches whose columns differ in type are always refused.
pub proof fn columns_of_different_types_are_refused(
    schema: SchemaModel,
    bs: Seq<BatchModel>,
    result: Result<Batch, ConcatError>,
    i: int,
    k: int,
)
    requires
        0 <= i < schema.fields.len(),
        0 <= k < bs.len(),
        bs[k].columns[i].data_type != bs[0].columns[i].data_type,
        batches_result(schema, bs, result),
    ensures
        result is Err,
{
    if result is Ok {
        let cs = column_models(bs, i);
        let column = batch_contents(result->Ok_0).columns[i];
        assert(cs[k].data_type != cs[0].data_type);
        assert(columns_before(bs, schema.fields.len() as int));
        assert(!one_type(cs));
    }
}

/// Batches one of whose columns differs in type fail with the error of that column or of one before it.
pub proof fn batches_fail_with_their_first_column(
    schema: SchemaModel,
    bs: Seq<BatchModel>,
    result: Result<Batch, ConcatError>,
    i: int,
    k: int,
)
    requires
        0 <= i < schema.fields.len(),
        0 <= k < bs.len(),
        bs[k].columns[i].data_type != bs[0].columns[i].data_type,
        batches_result(schema, bs, result),
    ensures
        result matches Err(error) && exists|j: int|
            0 <= j <= i && #[trigger] result_of(columns_at(bs, j), Err(error)),
{
    columns_of_different_types_are_refused(schema, bs, result, i, k);
    let error = result->Err_0;
    let cs = column_models(bs, i);
    assert(cs[k].data_type != cs[0].data_type);
    assert(!one_type(cs));
    assert(mixed(cs));
    let j = choose|j: int| 0 <= j < schema.fields.len() && #[trigger] first_failure(bs, j, error);
    assert(columns_at(bs, j) =~= column_models(bs, j));
    assert(result_of(columns_at(bs, j), Err(error)));
}

/// Batches that have the columns of the schema are within the limits if each column is, those of a schema
/// without fields if their rows can be counted.
pub proof fn batches_are_within_the_limits(schema: SchemaModel, bs: Seq<BatchModel>)
    requires
        schema.fields.len() == 0 ==> rows_of(bs) <= usize::MAX,
        schema.fields.len() > 0 ==> bs.len() > 0,
        forall|k: int|
            0 <= k < bs.len() ==> (#[trigger] bs[k]).columns.len() >= schema.fields.len(),
        forall|i: int| 0 <= i < schema.fields.len() ==> in_limits(#[trigger] columns_at(bs, i)),
    ensures
        batches_in_limits(schema, bs),
{
    lemma_rows_of(bs);
    assert forall|i: int| 0 <= i < schema.fields.len() implies in_limits(
        #[trigger] column_models(bs, i),
    ) by {
        assert(columns_at(bs, i) =~= column_models(bs, i));
    }
}

// Empty batches

/// No batch at all is within the limits if an array without slots can be made for each field.
pub proof fn empty_batches_are_within_the_limits(schema: SchemaModel)
    requires
        forall|i: int|
            0 <= i < schema.fields.len() ==> emptiable((#[trigger] schema.fields[i]).data_type),
    ensures
        batches_in_limits(schema, Seq::empty()),
{
    lemma_rows_of(Seq::empty());
}

/// Arrays of types without fields can be without slots.
pub proof fn flat_types_can_be_empty(t: TypeModel)
    requires
        t.fields.len() == 0,
        match t.shape {
            Shape::Null => true,
            Shape::Boolean => true,
            Shape::Primitive(_) => true,
            Shape::Bytes { .. } => true,
            Shape::View => true,
            Shape::FixedBinary(width) => width >= 0,
            Shape::Struct => true,
            _ => false,
        },
    ensures
        emptiable(t),
{
    if let Shape::FixedBinary(width) = t.shape {
        assert(0 * width == 0) by (nonlinear_arith);
    }
}

/// Lists, maps, structs, dictionaries and unions can be without slots if their fields can.
pub proof fn nested_types_can_be_empty(t: TypeModel)
    requires
        forall|j: int|
            0 <= j < t.fields.len() ==> emptiable((#[trigger] t.fields[j]).data_type),
        match t.shape {
            Shape::List { .. } => true,
            Shape::FixedList(size) => size >= 0 && t.fields.len() == 1,
            Shape::Struct => true,
            Shape::MapEntries => t.fields.len() == 1 && t.fields[0].data_type.shape is Struct
                && t.fields[0].data_type.fields.len() == 2,
            Shape::Dictionary => t.fields.len() == 2 && match t.fields[0].data_type.shape {
                Shape::Primitive(kind) => integer_max(kind) > 0,
                _ => false,
            },
            Shape::Union { .. } => t.fields.len() > 0 && forall|j: int|
                0 <= j < t.fields.len() ==> (#[trigger] t.fields[j]).id >= 0,
            _ => false,
        },
    ensures
        emptiable(t),
{
    if let Shape::FixedList(size) = t.shape {
        assert(0 * size == 0) by (nonlinear_arith);
    }
    assert forall|j: int| 0 <= j < t.fields.len() implies makeable(
        (#[trigger] t.fields[j]).data_type,
        child_slots(t, 0, j),
    ) by {
        assert(emptiable(t.fields[j].data_type));
    }
}

/// Run-end encoded arrays of values without fields can be without slots, though they then hold a value.
pub proof fn runs_of_flat_types_can_be_empty(t: TypeModel)
    requires
        t.shape is Runs,
        t.fields.len() == 2,
        match t.fields[0].data_type.shape {
            Shape::Primitive(kind) => kind is Int16 || kind is Int32 || kind is Int64,
            _ => false,
        },
        t.fields[0].data_type.fields.len() == 0,
        t.fields[1].data_type.fields.len() == 0,
        match t.fields[1].data_type.shape {
            Shape::Null => true,
            Shape::Boolean => true,
            Shape::Primitive(_) => true,
            Shape::Bytes { .. } => true,
            Shape::View => true,
            Shape::FixedBinary(width) => 0 <= width <= i32::MAX - 128,
            Shape::Struct => true,
            _ => false,
        },
    ensures
        emptiable(t),
{
    assert forall|j: int| 0 <= j < t.fields.len() implies makeable(
        (#[trigger] t.fields[j]).data_type,
        child_slots(t, 0, j),
    ) by {
        assert(child_slots(t, 0, j) == 1);
        if let Shape::FixedBinary(width) = t.fields[j].data_type.shape {
            assert(1 * width == width) by (nonlinear_arith);
        }
    }
}

// Arrays that agree with themselves

/// Whether an array is neither run-end encoded nor a union, nor holds such an array.
pub open spec fn simple(m: ArrayModel) -> bool
    decreases m,
{
    &&& m.data_type.shape !is Runs
    &&& m.data_type.shape !is Union
    &&& forall|j: int| 0 <= j < m.children.len() ==> simple(#[trigger] m.children[j])
}

/// Every array of Arrow's that holds no runs and no unions agrees with itself.
pub proof fn simple_arrays_agree(m: ArrayModel)
    requires
        sound(m),
        simple(m),
    ensures
        valid(m),
    decreases m,
{
    assert forall|j: int| 0 <= j < m.children.len() implies valid(#[trigger] m.children[j]) by {
        simple_arrays_agree(m.children[j]);
    }
}

/// Run-end encoded arrays agree with themselves if their values do, there is a value for each run end, run
/// ends rise, and the last row lies before the last run end.
pub proof fn runs_agree(m: ArrayModel)
    requires
        sound(m),
        m.data_type.shape is Runs,
        valid(m.children[0]),
        m.ints.len() == m.children[0].len,
        forall|i: int| 0 <= i < m.ints.len() ==> 0 <= #[trigger] m.ints[i],
        forall|i: int, j: int|
            0 <= i < j < m.ints.len() ==> #[trigger] m.ints[i] < #[trigger] m.ints[j],
        m.len == 0 || m.ints.len() > 0 && m.offset + m.len <= m.ints.last(),
    ensures
        valid(m),
{
}

/// Unions agree with themselves if their children do, the type id of each slot is that of a field, and each
/// slot lies in its child.
pub proof fn unions_agree(m: ArrayModel)
    requires
        sound(m),
        m.data_type.shape is Union,
        forall|j: int| 0 <= j < m.children.len() ==> valid(#[trigger] m.children[j]),
        forall|i: int| 0 <= i < m.len ==> 0 <= #[trigger] m.ints[i] < m.children.len(),
        m.data_type.shape == (Shape::Union { dense: true }) ==> forall|i: int|
            0 <= i < m.len ==> 0 <= #[trigger] m.offsets[i] < m.children[m.ints[i]].len,
        m.data_type.shape == (Shape::Union { dense: false }) ==> forall|j: int|
            0 <= j < m.children.len() ==> (#[trigger] m.children[j]).len == m.len,
    ensures
        valid(m),
{
}

// Room

/// The room that arrays need is counted in full: all their slots, and all the bytes of strings.
pub proof fn room_is_for_all(t: TypeModel, ms: Seq<ArrayModel>)
    ensures
        match room(t, ms) {
            Hint::Slots(n) => n == slots(ms) && t.shape !is Bytes,
            Hint::Bytes(n, bytes) => n == slots(ms) && bytes == spanned(ms) && t.shape is Bytes,
            Hint::Lists(n, _) => n == slots(ms) && t.shape is FixedList,
        },
{
    lemma_slots(ms);
    lemma_spanned(ms);
}

// Words

/// Texts set off by commas.
pub open spec fn commas(texts: Seq<Seq<char>>) -> Seq<char>
    decreases texts.len(),
{
    if texts.len() == 0 {
        seq![]
    } else if texts.len() == 1 {
        texts[0]
    } else {
        texts[0] + ", "@ + commas(texts.drop_first())
    }
}

/// A text behind texts set off by commas is set off by one more comma.
proof fn lemma_commas(texts: Seq<Seq<char>>, text: Seq<char>)
    requires
        texts.len() > 0,
    ensures
        commas(texts.push(text)) == commas(texts) + ", "@ + text,
    decreases texts.len(),
{
    let all = texts.push(text);
    let rest = texts.drop_first();
    assert(all.drop_first() =~= rest.push(text));
    if texts.len() == 1 {
        assert(rest.push(text) =~= seq![text]);
        assert(commas(seq![text]) == text);
        assert(commas(all) =~= commas(texts) + ", "@ + text);
    } else {
        lemma_commas(rest, text);
        assert(commas(all) =~= commas(texts) + ", "@ + text);
    }
}

/// The texts at these places.
pub open spec fn texts_at(places: Seq<int>, texts: Seq<Seq<char>>) -> Seq<Seq<char>> {
    Seq::new(places.len(), |k: int| texts[places[k]])
}

/// Up to ten texts are listed, set off by commas.
proof fn lemma_listing(places: Seq<int>, texts: Seq<Seq<char>>)
    requires
        places.len() <= 10,
    ensures
        listing(places, texts) == commas(texts_at(places, texts)),
    decreases places.len(),
{
    if places.len() > 0 {
        let front = places.drop_last();
        let text = texts[places.last()];
        lemma_listing(front, texts);
        assert(texts_at(places, texts) =~= texts_at(front, texts).push(text));
        if places.len() == 1 {
            assert(texts_at(places, texts) =~= seq![text]);
            assert(listing(places, texts) =~= text);
        } else {
            lemma_commas(texts_at(front, texts), text);
        }
    }
}

/// Of more than ten texts the first ten are listed, and dots behind them.
proof fn lemma_long_listing(places: Seq<int>, texts: Seq<Seq<char>>)
    requires
        places.len() > 10,
    ensures
        listing(places, texts) == commas(texts_at(places.take(10), texts)) + ", ..."@,
    decreases places.len(),
{
    let front = places.drop_last();
    if places.len() == 11 {
        assert(front =~= places.take(10));
        lemma_listing(front, texts);
    } else {
        lemma_long_listing(front, texts);
        assert(front.take(10) =~= places.take(10));
    }
}

/// The type of each array.
pub open spec fn kinds(ms: Seq<ArrayModel>) -> Seq<TypeModel> {
    Seq::new(ms.len(), |i: int| ms[i].data_type)
}

/// Whether a type occurs at this place for the first time.
pub open spec fn is_new(types: Seq<TypeModel>, p: int) -> bool {
    forall|b: int| 0 <= b < p ==> #[trigger] types[b] != types[p]
}

/// The places that are named are where types occur for the first time, in order, each of them.
proof fn lemma_first_places(types: Seq<TypeModel>)
    ensures
        forall|k: int, q: int|
            0 <= k < q < firsts(types).len() ==> #[trigger] firsts(types)[k] < #[trigger] firsts(
                types,
            )[q],
        forall|k: int|
            0 <= k < firsts(types).len() ==> 0 <= #[trigger] firsts(types)[k] < types.len(),
        forall|p: int|
            0 <= p < types.len() ==> (firsts(types).contains(p) <==> #[trigger] is_new(types, p)),
    decreases types.len(),
{
    if types.len() > 0 {
        let front = types.drop_last();
        let n = front.len() as int;
        lemma_first_places(front);
        assert forall|p: int| 0 <= p < types.len() implies (firsts(types).contains(p)
            <==> #[trigger] is_new(types, p)) by {
            if p < n {
                assert(is_new(front, p) == is_new(types, p)) by {
                    if is_new(types, p) {
                        assert forall|b: int| 0 <= b < p implies #[trigger] front[b]
                            != front[p] by {
                            assert(types[b] != types[p]);
                        }
                    }
                    if is_new(front, p) {
                        assert forall|b: int| 0 <= b < p implies #[trigger] types[b]
                            != types[p] by {
                            assert(front[b] != front[p]);
                        }
                    }
                }
                if firsts(front).contains(p) {
                    let k = choose|k: int| 0 <= k < firsts(front).len() && firsts(front)[k] == p;
                    assert(firsts(types)[k] == p);
                }
                if firsts(types).contains(p) {
                    let k = choose|k: int| 0 <= k < firsts(types).len() && firsts(types)[k] == p;
                    assert(firsts(front)[k] == p);
                }
            } else if front.contains(types.last()) {
                let b = choose|b: int| 0 <= b < front.len() && front[b] == types.last();
                assert(types[b] == types[p]);
                if firsts(types).contains(p) {
                    let k = choose|k: int| 0 <= k < firsts(types).len() && firsts(types)[k] == p;
                    assert(firsts(front)[k] == p);
                }
            } else {
                assert(firsts(types)[firsts(front).len() as int] == p);
                assert forall|b: int| 0 <= b < p implies #[trigger] types[b] != types[p] by {
                    assert(front[b] == types[b]);
                    assert(front.contains(front[b]));
                }
            }
        }
    }
}

/// The words for arrays of different types name each type once, in the order in which they come up: the
/// first ten, set off by commas, and dots for more.
pub proof fn different_types_are_told(ms: Seq<ArrayModel>, result: Result<AnyArray, ConcatError>) -> (r: (
    Seq<int>,
    Seq<Seq<char>>,
))
    requires
        ms.len() >= 2,
        !one_type(ms),
        result_of(ms, result),
    ensures
        forall|k: int, q: int| 0 <= k < q < r.0.len() ==> #[trigger] r.0[k] < #[trigger] r.0[q],
        forall|k: int| 0 <= k < r.0.len() ==> 0 <= #[trigger] r.0[k] < ms.len(),
        forall|p: int|
            0 <= p < ms.len() ==> (r.0.contains(p) <==> #[trigger] is_new(
                kinds(ms),
                p,
            )),
        r.1.len() == ms.len(),
        forall|i: int|
            0 <= i < ms.len() && printable(ms[i].data_type) ==> #[trigger] r.1[i] == type_text(
                ms[i].data_type,
            ),
        result matches Err(ConcatError::InvalidArgument(text)) && text@
            == "It is not possible to concatenate arrays of different data types ("@ + (
        if r.0.len() <= 10 {
            commas(texts_at(r.0, r.1))
        } else {
            commas(texts_at(r.0.take(10), r.1)) + ", ..."@
        }) + ")."@,
{
    let types = types_of(ms);
    assert(types =~= kinds(ms));
    let text = result->Err_0->InvalidArgument_0;
    let texts = choose|texts: Seq<Seq<char>>| #[trigger]
        texts_of(texts, types) && text@ == mismatch_text(types, texts);
    let places = firsts(types);
    lemma_first_places(types);
    if places.len() <= 10 {
        lemma_listing(places, texts);
    } else {
        lemma_long_listing(places, texts);
    }
    (places, texts)
}

} // verus!

//! What holds of concatenation as a whole.
use vstd::prelude::*;

use crate::batches::{batches_result, column_models, first_failure, rows_total, schema_refuses};
use crate::capacity::lemma_children;
use crate::concat::{
    cause_of, columns_pass, explained, fixed_parts_fail, fixed_parts_may_fail, laid_out,
    list_parts_may_fail, may_fail, mixed, refused, result_of, run_parts_may_fail, run_values_of,
    struct_parts_may_fail, Failure,
};
use crate::dictionary::{crowded, known_outcome, mergeable, refers, values_may_fail};
use crate::error::ConcatError;
use crate::joins::{
    all_alike, all_valid, dictionary_rows, joined_columns, lemma_dictionary_rows, lemma_joined_at,
    lemma_joined_len, lemma_joined_nulls, lemma_joined_one, lemma_list_rows, lemma_null_at,
    lemma_take_step, lemma_total_prefix, lemma_validity, one_type,
};
use crate::limits::{
    child_models, copyable, fits, fixed_models, run_models, typed_children, used, used_models,
};
use crate::mismatch::{firsts, lemma_firsts, named};
use crate::model::{
    absent, clear_nulls, concatenates, holds_null, index_max, joined, joined_nulls, joined_validity,
    null_at, row, rows, sliced, some_hold_null, sturdy, total, valid, validity, ArrayModel, Shape,
    TypeModel, Value,
};
use crate::outside::{contents, unclear_nulls, unmasked_null, AnyArray};
use crate::parts::{lemma_run_models, lemma_used_type};
use crate::records::{batch_contents, unsuited, valid_batch, Batch, BatchModel, SchemaModel};
use crate::slices::{
    lemma_slice_again, lemma_sliced_holds, lemma_sliced_valid, lemma_sliced_validity,
    slice_keeps_rows,
};

verus! {

/// The rows of two groups of arrays together are the rows of the first group and those of the second,
/// and so are validity and length.
pub proof fn joined_is_additive(ms: Seq<ArrayModel>, more: Seq<ArrayModel>)
    ensures
        joined(ms + more) == joined(ms) + joined(more),
        joined_validity(ms + more) == joined_validity(ms) + joined_validity(more),
        total(ms + more) == total(ms) + total(more),
    decreases more.len(),
{
    if more.len() == 0 {
        assert(ms + more =~= ms);
        assert(joined(ms) + joined(more) =~= joined(ms));
        assert(joined_validity(ms) + joined_validity(more) =~= joined_validity(ms));
    } else {
        assert((ms + more).drop_last() =~= ms + more.drop_last());
        assert((ms + more).last() == more.last());
        joined_is_additive(ms, more.drop_last());
        assert(joined(ms + more) =~= joined(ms) + joined(more));
        assert(joined_validity(ms + more) =~= joined_validity(ms) + joined_validity(more));
    }
}

/// An array of concatenated arrays has the validity of those arrays.
proof fn lemma_concatenated_validity(ms: Seq<ArrayModel>, out: ArrayModel)
    requires
        all_valid(ms),
        concatenates(ms, out),
    ensures
        validity(out) == joined_validity(ms),
{
    lemma_joined_len(ms);
    lemma_validity(out, joined_validity(ms));
}

/// Concatenation is associative: to concatenate some arrays first and the result with the others
/// afterwards gives the rows, the type and the nulls of concatenating all at once.
pub proof fn concat_is_associative(
    ms: Seq<ArrayModel>,
    more: Seq<ArrayModel>,
    first: ArrayModel,
    staged: ArrayModel,
    at_once: ArrayModel,
)
    requires
        ms.len() > 0,
        all_valid(ms),
        all_valid(more),
        concatenates(ms, first),
        concatenates(seq![first] + more, staged),
        concatenates(ms + more, at_once),
    ensures
        rows(staged) == rows(at_once),
        staged.data_type == at_once.data_type,
        staged.nulls == at_once.nulls,
        staged.len == at_once.len,
{
    joined_is_additive(ms, more);
    joined_is_additive(seq![first], more);
    lemma_joined_one(first);
    lemma_concatenated_validity(ms, first);
    assert((seq![first] + more)[0] == first);
    assert((ms + more)[0] == ms[0]);
}

/// A slice undoes a concatenation: where an array has its place in the result, the result has the
/// rows of the array.
pub proof fn slice_undoes_concat(ms: Seq<ArrayModel>, out: ArrayModel, i: int)
    requires
        all_valid(ms),
        concatenates(ms, out),
        0 <= i < ms.len(),
    ensures
        total(ms.take(i)) + ms[i].len <= out.len,
        rows(sliced(out, total(ms.take(i)) as int, ms[i].len as int)) == rows(ms[i]),
{
    let start = total(ms.take(i)) as int;
    let len = ms[i].len as int;
    lemma_take_step(ms, i);
    lemma_total_prefix(ms, i + 1);
    slice_keeps_rows(out, start, len);
    assert forall|k: int| 0 <= k < len implies rows(out)[start + k] == #[trigger] rows(
        ms[i],
    )[k] by {
        lemma_joined_at(ms, i, k);
    }
    assert(rows(sliced(out, start, len)) =~= rows(ms[i]));
}

/// An array without slots adds nothing: with it or without it, wherever it stands, the rows are the
/// same.
pub proof fn empty_array_adds_nothing(
    ms: Seq<ArrayModel>,
    empty: ArrayModel,
    more: Seq<ArrayModel>,
)
    requires
        valid(empty),
        empty.len == 0,
    ensures
        joined(ms + seq![empty] + more) == joined(ms + more),
{
    joined_is_additive(ms + seq![empty], more);
    joined_is_additive(ms, seq![empty]);
    joined_is_additive(ms, more);
    lemma_joined_one(empty);
    assert(rows(empty) =~= seq![]);
    assert(joined(ms) + rows(empty) =~= joined(ms));
}

/// Success is owed: arrays of one type are concatenated where no cause of failure is at hand.
pub proof fn concat_succeeds(ms: Seq<ArrayModel>, result: Result<AnyArray, ConcatError>)
    requires
        result_of(ms, result),
        ms.len() > 0,
        !mixed(ms),
        !may_fail(ms[0].data_type, ms, Failure::NoRows),
        !may_fail(ms[0].data_type, ms, Failure::Keys),
        !may_fail(ms[0].data_type, ms, Failure::Values),
        !may_fail(ms[0].data_type, ms, Failure::Parts),
    ensures
        result matches Ok(out) && concatenates(ms, contents(out)),
{
    if let Err(error) = result {
        error_has_a_cause(ms[0].data_type, ms, error);
    }
}

/// Arrays that hold no other arrays are always concatenated, and so are maps, lists of fixed size and
/// unions that can be copied whole, whatever they hold.
pub proof fn flat_arrays_never_fail(ms: Seq<ArrayModel>, result: Result<AnyArray, ConcatError>)
    requires
        result_of(ms, result),
        ms.len() > 0,
        one_type(ms),
        ms[0].data_type.shape !is Dictionary,
        ms[0].data_type.shape !is List,
        ms[0].data_type.shape !is Struct,
        ms[0].data_type.shape !is Runs,
        ms[0].data_type.shape is FixedList || ms[0].data_type.shape is MapEntries
            || ms[0].data_type.shape is Union ==> copyable(ms[0].data_type, ms),
    ensures
        result matches Ok(out) && concatenates(ms, contents(out)),
{
}

/// What is refused in any case is refused for a cause.
pub proof fn refusal_has_a_cause(t: TypeModel, ms: Seq<ArrayModel>)
    requires
        valid_of_type(t, ms),
        fits(t, ms),
        refused(t, ms),
    ensures
        may_fail(t, ms, Failure::NoRows) || may_fail(t, ms, Failure::Parts),
    decreases t,
{
    assert(valid(ms[0]));
    assert(ms[0].data_type == t);
    match t.shape {
        Shape::List { .. } => {
            lemma_used_type(ms);
            if refused(t.fields[0].data_type, used_models(ms)) {
                assert forall|i: int| 0 <= i < ms.len() implies (#[trigger] used_models(
                    ms,
                )[i]).data_type == t.fields[0].data_type by {
                    assert(used_models(ms)[i].data_type == used_models(ms)[0].data_type);
                }
                refusal_has_a_cause(t.fields[0].data_type, used_models(ms));
            } else {
                let items = used_models(ms);
                assert forall|i: int| 0 <= i < items.len() implies (
                #[trigger] items[i]).data_type == t.fields[0].data_type by {
                    assert(items[i].data_type == items[0].data_type);
                }
                if joined_nulls(items) is Some {
                    lemma_null_held(items);
                } else {
                    let i = lemma_nonempty(items);
                    assert(holds_null(items[i]));
                }
            }
        },
        Shape::Struct => {
            if exists|j: int|
                0 <= j < t.fields.len() && refused(
                    (#[trigger] t.fields[j]).data_type,
                    child_models(ms, j),
                ) {
                let j = choose|j: int|
                    0 <= j < t.fields.len() && refused(
                        (#[trigger] t.fields[j]).data_type,
                        child_models(ms, j),
                    );
                assert forall|i: int| 0 <= i < ms.len() implies 0 <= j < (
                #[trigger] ms[i]).children.len() by {
                    assert(valid(ms[i]));
                    assert(ms[i].data_type == t);
                }
                assert(one_type(ms));
                assert(t.fields[j].data_type == t.fields[j].data_type);
                lemma_children(ms, j);
                assert forall|i: int| 0 <= i < ms.len() implies (#[trigger] child_models(
                    ms,
                    j,
                )[i]).data_type == t.fields[j].data_type by {
                    assert(child_models(ms, j)[i].data_type == child_models(ms, j)[0].data_type);
                }
                refusal_has_a_cause(t.fields[j].data_type, child_models(ms, j));
            }
        },
        Shape::Runs => {
            assert(one_type(ms));
            lemma_run_models(ms);
            if run_models(ms).len() > 0 {
                assert forall|i: int| 0 <= i < run_models(ms).len() implies (#[trigger] run_models(
                    ms,
                )[i]).data_type == t.fields[1].data_type by {
                    assert(run_models(ms)[i].data_type == run_models(ms)[0].data_type);
                }
                refusal_has_a_cause(t.fields[1].data_type, run_models(ms));
            }
        },
        Shape::FixedList(size) => {
            if refused(t.fields[0].data_type, fixed_models(ms, size as int)) {
                lemma_fixed_of_type(t, ms, size);
                refusal_has_a_cause(t.fields[0].data_type, fixed_models(ms, size as int));
            }
        },
        Shape::MapEntries => {
            if refused(t.fields[0].data_type, used_models(ms)) {
                lemma_used_type(ms);
                assert forall|i: int| 0 <= i < ms.len() implies (#[trigger] used_models(
                    ms,
                )[i]).data_type == t.fields[0].data_type by {
                    assert(used_models(ms)[i].data_type == used_models(ms)[0].data_type);
                }
                refusal_has_a_cause(t.fields[0].data_type, used_models(ms));
            }
        },
        Shape::Union { .. } => {
            let j = choose|j: int|
                0 <= j < t.fields.len() && refused(
                    (#[trigger] t.fields[j]).data_type,
                    child_models(ms, j),
                );
            assert(t.fields[j].data_type == t.fields[j].data_type);
            lemma_columns_of_type(t, ms, j);
            refusal_has_a_cause(t.fields[j].data_type, child_models(ms, j));
        },
        _ => {},
    }
}

/// The items of lists of fixed size that lie in the slots are valid arrays of the type of the field.
pub proof fn lemma_fixed_of_type(t: TypeModel, ms: Seq<ArrayModel>, size: i32)
    requires
        t.shape == Shape::FixedList(size),
        valid_of_type(t, ms),
        ms.len() > 0,
    ensures
        valid_of_type(t.fields[0].data_type, fixed_models(ms, size as int)),
{
    let n = size as int;
    assert forall|i: int| 0 <= i < ms.len() implies valid(#[trigger] fixed_models(ms, n)[i])
        && fixed_models(ms, n)[i].data_type == t.fields[0].data_type by {
        let m = ms[i];
        assert(valid(m));
        assert(m.data_type == t);
        assert(valid(m.children[0]));
        assert(0 <= m.len * n) by (nonlinear_arith)
            requires
                m.len >= 0,
                n >= 0,
        ;
        lemma_sliced_valid(m.children[0], 0, m.len * n);
    }
}

/// Whether these are valid arrays of type `t`.
pub open spec fn valid_of_type(t: TypeModel, ms: Seq<ArrayModel>) -> bool {
    &&& all_valid(ms)
    &&& forall|i: int| 0 <= i < ms.len() ==> (#[trigger] ms[i]).data_type == t
}

/// Of arrays that have slots, one has a slot.
proof fn lemma_nonempty(ms: Seq<ArrayModel>) -> (i: int)
    requires
        total(ms) > 0,
    ensures
        0 <= i < ms.len(),
        ms[i].len > 0,
    decreases ms.len(),
{
    if ms.last().len > 0 {
        ms.len() - 1
    } else {
        lemma_nonempty(ms.drop_last())
    }
}

/// Arrays that have a null slot hold a null.
proof fn lemma_null_held(ms: Seq<ArrayModel>)
    requires
        all_valid(ms),
        joined_nulls(ms) is Some,
    ensures
        some_hold_null(ms),
{
    lemma_joined_nulls(ms);
    let i = choose|i: int| 0 <= i < ms.len() && (#[trigger] ms[i]).nulls is Some;
    assert(valid(ms[i]));
    assert(ms[i].nulls->Some_0.contains(false));
    assert(holds_null(ms[i]));
}

/// Every error tells a cause for which concatenating the arrays may fail.
pub proof fn error_has_a_cause(t: TypeModel, ms: Seq<ArrayModel>, error: ConcatError)
    requires
        explained(t, ms, error),
    ensures
        may_fail(t, ms, cause_of(error)),
    decreases t,
{
    match t.shape {
        Shape::List { .. } => {
            if explained(t.fields[0].data_type, used_models(ms), error) {
                error_has_a_cause(t.fields[0].data_type, used_models(ms), error);
            }
        },
        Shape::Struct => {
            if exists|j: int|
                0 <= j < t.fields.len() && explained(
                    (#[trigger] t.fields[j]).data_type,
                    child_models(ms, j),
                    error,
                ) && columns_pass(t, ms, j) {
                let j = choose|j: int|
                    0 <= j < t.fields.len() && explained(
                        (#[trigger] t.fields[j]).data_type,
                        child_models(ms, j),
                        error,
                    ) && columns_pass(t, ms, j);
                error_has_a_cause(t.fields[j].data_type, child_models(ms, j), error);
            }
        },
        Shape::Runs => {
            if explained(t.fields[1].data_type, run_models(ms), error) {
                error_has_a_cause(t.fields[1].data_type, run_models(ms), error);
            }
        },
        Shape::Dictionary => {
            if explained(t.fields[1].data_type, child_models(ms, 0), error) {
                error_has_a_cause(t.fields[1].data_type, child_models(ms, 0), error);
            }
        },
        Shape::FixedList(size) => {
            if explained(t.fields[0].data_type, fixed_models(ms, size as int), error) {
                error_has_a_cause(t.fields[0].data_type, fixed_models(ms, size as int), error);
            }
        },
        Shape::MapEntries => {
            if explained(t.fields[0].data_type, used_models(ms), error) {
                error_has_a_cause(t.fields[0].data_type, used_models(ms), error);
            }
        },
        Shape::Union { .. } => {
            let j = choose|j: int|
                0 <= j < t.fields.len() && explained(
                    (#[trigger] t.fields[j]).data_type,
                    child_models(ms, j),
                    error,
                ) && columns_pass(t, ms, j);
            error_has_a_cause(t.fields[j].data_type, child_models(ms, j), error);
        },
        _ => {},
    }
}

/// Each type is named once: no two of the places that are named have the same type, and every array
/// has the type of one of them.
pub proof fn types_are_named_once(types: Seq<TypeModel>)
    ensures
        forall|k: int|
            0 <= k < firsts(types).len() ==> 0 <= #[trigger] firsts(types)[k] < types.len(),
        forall|k: int, q: int|
            0 <= k < q < firsts(types).len() ==> types[#[trigger] firsts(types)[k]]
                != types[#[trigger] firsts(types)[q]],
        forall|i: int| 0 <= i < types.len() ==> named(types, #[trigger] types[i]),
{
    lemma_firsts(types);
    lemma_firsts_distinct(types);
}

/// No two first places have the same type.
proof fn lemma_firsts_distinct(types: Seq<TypeModel>)
    ensures
        forall|k: int|
            0 <= k < firsts(types).len() ==> 0 <= #[trigger] firsts(types)[k] < types.len(),
        forall|k: int, q: int|
            0 <= k < q < firsts(types).len() ==> types[#[trigger] firsts(types)[k]]
                != types[#[trigger] firsts(types)[q]],
    decreases types.len(),
{
    if types.len() > 0 {
        let front = types.drop_last();
        lemma_firsts_distinct(front);
        assert forall|k: int, q: int| 0 <= k < q < firsts(types).len() implies types[#[trigger] firsts(
            types,
        )[k]] != types[#[trigger] firsts(types)[q]] by {
            assert(firsts(types)[k] == firsts(front)[k]);
            assert(front[firsts(front)[k]] == types[firsts(types)[k]]);
            if q < firsts(front).len() {
                assert(firsts(types)[q] == firsts(front)[q]);
                assert(front[firsts(front)[q]] == types[firsts(types)[q]]);
            } else {
                assert(front.contains(front[firsts(front)[k]]));
            }
        }
    }
}

/// A batch of concatenated batches has the rows of all of them in each of its columns, and as many
/// rows as they have together.
pub proof fn batches_keep_rows(
    schema: SchemaModel,
    bs: Seq<BatchModel>,
    result: Result<Batch, ConcatError>,
    i: int,
)
    requires
        batches_result(schema, bs, result),
        result is Ok,
        bs.len() > 0,
        0 <= i < schema.fields.len(),
    ensures
        batch_contents(result->Ok_0).schema == schema,
        batch_contents(result->Ok_0).len == rows_total(bs),
        rows(batch_contents(result->Ok_0).columns[i]) == joined(column_models(bs, i)),
        batch_contents(result->Ok_0).columns[i].data_type == schema.fields[i].data_type,
{
    let b = batch_contents(result->Ok_0);
    assert(concatenates(column_models(bs, i), b.columns[i]));
    assert(column_models(bs, i)[0] == bs[0].columns[i]);
    assert(schema.fields[i].data_type == bs[0].columns[i].data_type);
}

// Parts of one array

/// Whether the slots that are not null have no null where a field takes none.
pub open spec fn nulls_honoured(m: ArrayModel) -> bool {
    &&& forall|j: int|
        0 <= j < m.data_type.fields.len() ==> (#[trigger] m.data_type.fields[j]).nullable
            || clear_nulls(m.data_type.fields[j].data_type)
    &&& forall|j: int, i: int|
        0 <= j < m.children.len() && 0 <= i < m.len && !m.data_type.fields[j].nullable && validity(
            m,
        )[i] ==> !absent(#[trigger] row(m.children[j], i))
}

/// Whether no lists of fixed size that are not null hold a null where their field takes none.
pub open spec fn items_honoured(m: ArrayModel, size: int) -> bool {
    m.data_type.fields[0].nullable || {
        &&& clear_nulls(m.data_type.fields[0].data_type)
        &&& forall|i: int|
            0 <= i < m.len * size && validity(m)[i / size] ==> !absent(
                #[trigger] row(m.children[0], i),
            )
    }
}

/// Whether arrays of type `t` are always concatenated, whatever they hold.
pub open spec fn never_fails(t: TypeModel) -> bool
    decreases t,
{
    match t.shape {
        Shape::Dictionary => false,
        Shape::Runs => false,
        Shape::MapEntries => false,
        Shape::Null => true,
        Shape::Boolean => true,
        Shape::Primitive(_) => true,
        Shape::Bytes { .. } => true,
        Shape::View => true,
        Shape::FixedBinary(_) => true,
        _ => forall|j: int|
            0 <= j < t.fields.len() ==> (#[trigger] t.fields[j]).nullable && never_fails(
                t.fields[j].data_type,
            ),
    }
}

/// Arrays of such a type have no cause of failure.
pub proof fn lemma_never_fails(t: TypeModel, ms: Seq<ArrayModel>, cause: Failure)
    requires
        never_fails(t),
    ensures
        !may_fail(t, ms, cause),
    decreases t,
{
    match t.shape {
        Shape::List { .. } => {
            if t.fields.len() > 0 {
                assert(t.fields[0].nullable);
                lemma_never_fails(t.fields[0].data_type, used_models(ms), cause);
            }
        },
        Shape::FixedList(size) => {
            if t.fields.len() > 0 {
                assert(t.fields[0].nullable);
                lemma_never_fails(t.fields[0].data_type, fixed_models(ms, size as int), cause);
            }
        },
        Shape::Struct => {
            assert forall|j: int| 0 <= j < t.fields.len() implies !may_fail(
                (#[trigger] t.fields[j]).data_type,
                child_models(ms, j),
                cause,
            ) by {
                lemma_never_fails(t.fields[j].data_type, child_models(ms, j), cause);
            }
            assert(!unclear_nulls(t));
            let columns = joined_columns(ms, t.fields.len());
            assert forall|j: int| 0 <= j < columns.len() implies t.fields[j].nullable by {}
            assert(!unmasked_null(t, joined_validity(ms), columns));
        },
        Shape::Union { .. } => {
            assert forall|j: int| 0 <= j < t.fields.len() implies !may_fail(
                (#[trigger] t.fields[j]).data_type,
                child_models(ms, j),
                cause,
            ) by {
                lemma_never_fails(t.fields[j].data_type, child_models(ms, j), cause);
            }
        },
        _ => {},
    }
}

/// Whether two parts of an array never fail to be concatenated for this cause: it holds no runs, no field
/// that takes no null has one, the entries of maps are never null, and what unions hold never fails.
/// Lest keys fail, its dictionaries have values that can be compared, or few enough; lest values fail,
/// two times as many values go into one array.
pub open spec fn parts_join(m: ArrayModel, cause: Failure) -> bool
    decreases m,
{
    match m.data_type.shape {
        Shape::Dictionary => {
            let v = m.children[0];
            &&& cause is Keys ==> mergeable(v.data_type) || 2 * v.len <= index_max(m.data_type)
            &&& cause is Values ==> !values_may_fail(m.data_type, seq![m, m])
            &&& copyable(v.data_type, seq![v, v]) || never_fails(v.data_type)
        },
        Shape::List { .. } => {
            &&& m.data_type.fields[0].nullable || !holds_null(m.children[0])
            &&& m.children.len() > 0 && parts_join(m.children[0], cause)
        },
        Shape::Struct => {
            &&& nulls_honoured(m)
            &&& forall|j: int|
                0 <= j < m.children.len() ==> {
                    &&& (#[trigger] m.children[j]).data_type == m.data_type.fields[j].data_type
                    &&& parts_join(m.children[j], cause)
                }
        },
        Shape::Runs => false,
        Shape::FixedList(size) => {
            &&& items_honoured(m, size as int)
            &&& m.children.len() > 0 && parts_join(m.children[0], cause)
        },
        Shape::MapEntries => {
            &&& !m.data_type.fields[0].nullable
            &&& m.children.len() > 0 && m.children[0].nulls is None && parts_join(m.children[0], cause)
        },
        Shape::Union { .. } => forall|j: int|
            0 <= j < m.data_type.fields.len() ==> never_fails(
                (#[trigger] m.data_type.fields[j]).data_type,
            ),
        _ => true,
    }
}

/// Whether two parts of an array can always be concatenated.
pub open spec fn parts_always_join(m: ArrayModel) -> bool {
    &&& parts_join(m, Failure::NoRows)
    &&& parts_join(m, Failure::Keys)
    &&& parts_join(m, Failure::Values)
    &&& parts_join(m, Failure::Parts)
}

/// Two parts of an array.
pub open spec fn two_parts(m: ArrayModel, s1: int, n1: int, s2: int, n2: int) -> Seq<ArrayModel> {
    seq![sliced(m, s1, n1), sliced(m, s2, n2)]
}

/// Whether these bound parts of an array.
pub open spec fn parts_within(m: ArrayModel, s1: int, n1: int, s2: int, n2: int) -> bool {
    0 <= s1 && 0 <= n1 && s1 + n1 <= m.len && 0 <= s2 && 0 <= n2 && s2 + n2 <= m.len
}

/// What two arrays join to.
proof fn lemma_joined_two(a: ArrayModel, b: ArrayModel)
    requires
        valid(a),
        valid(b),
    ensures
        joined(seq![a, b]) == rows(a) + rows(b),
        joined_validity(seq![a, b]) == validity(a) + validity(b),
        total(seq![a, b]) == a.len + b.len,
{
    assert(seq![a, b] =~= seq![a] + seq![b]);
    joined_is_additive(seq![a], seq![b]);
    lemma_joined_one(a);
    lemma_joined_one(b);
}

/// Numbers below `n`, each once, are no more than `n`.
proof fn lemma_few_numbers(numbers: Seq<int>, n: int)
    requires
        0 <= n,
        numbers.no_duplicates(),
        forall|e: int| 0 <= e < numbers.len() ==> 0 <= #[trigger] numbers[e] < n,
    ensures
        numbers.len() <= n,
{
    numbers.unique_seq_to_set();
    vstd::set_lib::lemma_int_range(0, n);
    let all = vstd::set_lib::set_int_range(0, n);
    assert(numbers.to_set().subset_of(all)) by {
        assert forall|x: int| numbers.to_set().contains(x) implies all.contains(x) by {
            let e = choose|e: int| 0 <= e < numbers.len() && numbers[e] == x;
            assert(0 <= numbers[e] < n);
        }
    }
    vstd::set_lib::lemma_len_subset(numbers.to_set(), all);
}

/// Two parts of a dictionary array refer to no more distinct values than it has keys.
proof fn lemma_parts_not_crowded(m: ArrayModel, s1: int, n1: int, s2: int, n2: int)
    requires
        valid(m),
        m.data_type.shape is Dictionary,
        parts_within(m, s1, n1, s2, n2),
    ensures
        !crowded(two_parts(m, s1, n1, s2, n2), index_max(m.data_type)),
{
    let ms = two_parts(m, s1, n1, s2, n2);
    let max = index_max(m.data_type);
    let v = m.children[0];
    lemma_sliced_valid(m, s1, n1);
    lemma_sliced_valid(m, s2, n2);
    if crowded(ms, max) {
        let distinct = choose|distinct: Seq<Value>|
            {
                &&& #[trigger] distinct.no_duplicates()
                &&& distinct.len() > max + 1
                &&& forall|e: int| 0 <= e < distinct.len() ==> refers(ms, #[trigger] distinct[e])
            };
        let place = |value: Value|
            choose|k: int| 0 <= k <= max && 0 <= k < v.len && #[trigger] row(v, k) == value;
        let places = Seq::new(distinct.len(), |e: int| place(distinct[e]));
        assert forall|e: int| 0 <= e < distinct.len() implies {
            &&& 0 <= #[trigger] places[e] < max + 1
            &&& row(v, places[e]) == distinct[e]
        } by {
            let value = distinct[e];
            assert(refers(ms, value));
            let (i, q) = choose|i: int, q: int|
                0 <= i < ms.len() && 0 <= q < ms[i].len && !null_at(ms[i], q) && #[trigger] row(
                    ms[i],
                    q,
                ) == value;
            let d = ms[i];
            assert(valid(d));
            assert(d.children[0] == v);
            lemma_dictionary_rows(d);
            lemma_null_at(d, q);
            assert(rows(d)[q] == dictionary_rows(validity(d), d.ints, rows(v))[q]);
            assert(row(v, d.ints[q]) == value);
            assert(d.ints[q] <= max);
        }
        assert(places.no_duplicates()) by {
            assert forall|a: int, b: int|
                0 <= a < places.len() && 0 <= b < places.len() && a != b implies places[a]
                != places[b] by {
                assert(distinct[a] != distinct[b]);
                assert(row(v, places[a]) == distinct[a]);
                assert(row(v, places[b]) == distinct[b]);
            }
        }
        lemma_few_numbers(places, max + 1);
    }
}

/// Two parts of an array never fail to be concatenated for a cause for which parts of it join.
pub proof fn parts_never_fail(
    m: ArrayModel,
    s1: int,
    n1: int,
    s2: int,
    n2: int,
    cause: Failure,
)
    requires
        valid(m),
        parts_join(m, cause),
        parts_within(m, s1, n1, s2, n2),
    ensures
        !may_fail(m.data_type, two_parts(m, s1, n1, s2, n2), cause),
    decreases m,
{
    let t = m.data_type;
    let ms = two_parts(m, s1, n1, s2, n2);
    let a = sliced(m, s1, n1);
    let b = sliced(m, s2, n2);
    lemma_sliced_valid(m, s1, n1);
    lemma_sliced_valid(m, s2, n2);
    match t.shape {
        Shape::Dictionary => {
            let v = m.children[0];
            lemma_parts_not_crowded(m, s1, n1, s2, n2);
            assert(valid(v));
            assert(child_models(ms, 0) =~= seq![v, v]);
            assert(child_models(seq![m, m], 0) =~= seq![v, v]);
            lemma_joined_two(v, v);
            assert(v.data_type == t.fields[1].data_type);
            if !copyable(v.data_type, seq![v, v]) {
                lemma_never_fails(v.data_type, seq![v, v], cause);
            }
        },
        Shape::FixedList(size) => {
            let n = size as int;
            let child = m.children[0];
            assert(valid(child));
            assert(child.data_type == t.fields[0].data_type);
            lemma_fixed_parts(m, size, s1, n1);
            lemma_fixed_parts(m, size, s2, n2);
            assert(fixed_models(ms, n) =~= two_parts(child, s1 * n, n1 * n, s2 * n, n2 * n));
            parts_never_fail(child, s1 * n, n1 * n, s2 * n, n2 * n, cause);
            lemma_parts_items(m, size, s1, n1, s2, n2);
        },
        Shape::MapEntries => {
            let child = m.children[0];
            assert(valid(child));
            assert(child.data_type == t.fields[0].data_type);
            let (f1, l1) = (m.offsets[s1], m.offsets[s1 + n1] - m.offsets[s1]);
            let (f2, l2) = (m.offsets[s2], m.offsets[s2 + n2] - m.offsets[s2]);
            assert(m.offsets[s1] <= m.offsets[s1 + n1] <= m.offsets[m.len as int]);
            assert(m.offsets[s2] <= m.offsets[s2 + n2] <= m.offsets[m.len as int]);
            assert(used(a) == sliced(child, f1, l1));
            assert(used(b) == sliced(child, f2, l2));
            assert(used_models(ms) =~= two_parts(child, f1, l1, f2, l2));
            parts_never_fail(child, f1, l1, f2, l2, cause);
            lemma_sliced_valid(child, f1, l1);
            lemma_sliced_valid(child, f2, l2);
            lemma_joined_nulls(used_models(ms));
        },
        Shape::Union { .. } => {
            assert forall|j: int| 0 <= j < t.fields.len() implies !may_fail(
                (#[trigger] t.fields[j]).data_type,
                child_models(ms, j),
                cause,
            ) by {
                lemma_never_fails(t.fields[j].data_type, child_models(ms, j), cause);
            }
        },
        Shape::List { .. } => {
            let child = m.children[0];
            assert(valid(child));
            assert(child.data_type == t.fields[0].data_type);
            let (f1, l1) = (m.offsets[s1], m.offsets[s1 + n1] - m.offsets[s1]);
            let (f2, l2) = (m.offsets[s2], m.offsets[s2 + n2] - m.offsets[s2]);
            assert(m.offsets[s1] <= m.offsets[s1 + n1] <= m.offsets[m.len as int]);
            assert(m.offsets[s2] <= m.offsets[s2 + n2] <= m.offsets[m.len as int]);
            assert(used(a) == sliced(child, f1, l1));
            assert(used(b) == sliced(child, f2, l2));
            assert(used_models(ms) =~= two_parts(child, f1, l1, f2, l2));
            parts_never_fail(child, f1, l1, f2, l2, cause);
            lemma_sliced_holds(child, f1, l1);
            lemma_sliced_holds(child, f2, l2);
        },
        Shape::Struct => {
            assert forall|j: int| 0 <= j < t.fields.len() implies !may_fail(
                (#[trigger] t.fields[j]).data_type,
                child_models(ms, j),
                cause,
            ) by {
                let child = m.children[j];
                assert(valid(child));
                assert(child.data_type == t.fields[j].data_type);
                assert(a.children[j] == sliced(child, s1, n1));
                assert(b.children[j] == sliced(child, s2, n2));
                assert(child_models(ms, j) =~= two_parts(child, s1, n1, s2, n2));
                parts_never_fail(child, s1, n1, s2, n2, cause);
            }
            lemma_parts_honoured(m, s1, n1, s2, n2);
        },
        _ => {},
    }
}

/// The items in the slots of a part of lists of fixed size are a part of the items.
proof fn lemma_fixed_parts(m: ArrayModel, size: i32, start: int, len: int)
    requires
        valid(m),
        m.data_type.shape == Shape::FixedList(size),
        0 <= start,
        0 <= len,
        start + len <= m.len,
    ensures
        0 <= start * size,
        0 <= len * size,
        start * size + len * size <= m.children[0].len,
        sliced(sliced(m, start, len).children[0], 0, sliced(m, start, len).len * size) == sliced(
            m.children[0],
            start * size,
            len * size,
        ),
{
    let n = size as int;
    assert(0 <= start * n && 0 <= len * n && start * n + len * n <= m.len * n) by (nonlinear_arith)
        requires
            0 <= start,
            0 <= len,
            start + len <= m.len,
            n >= 0,
    ;
    assert(valid(m.children[0]));
    lemma_slice_again(m.children[0], start * n, len * n);
}

/// Parts of lists of fixed size have no null where none may be if the array has none.
proof fn lemma_parts_items(m: ArrayModel, size: i32, s1: int, n1: int, s2: int, n2: int)
    requires
        valid(m),
        m.data_type.shape == Shape::FixedList(size),
        items_honoured(m, size as int),
        parts_within(m, s1, n1, s2, n2),
    ensures
        !fixed_parts_may_fail(m.data_type, two_parts(m, s1, n1, s2, n2), size as int),
{
    let n = size as int;
    let ms = two_parts(m, s1, n1, s2, n2);
    let a = sliced(m, s1, n1);
    let b = sliced(m, s2, n2);
    let child = m.children[0];
    let (ca, cb) = (sliced(child, s1 * n, n1 * n), sliced(child, s2 * n, n2 * n));
    let bits = joined_validity(ms);
    let values = joined(fixed_models(ms, n));
    assert(valid(child));
    lemma_fixed_parts(m, size, s1, n1);
    lemma_fixed_parts(m, size, s2, n2);
    assert(fixed_models(ms, n) =~= seq![ca, cb]);
    lemma_sliced_valid(m, s1, n1);
    lemma_sliced_valid(m, s2, n2);
    lemma_joined_two(a, b);
    lemma_sliced_validity(m, s1, n1);
    lemma_sliced_validity(m, s2, n2);
    lemma_sliced_valid(child, s1 * n, n1 * n);
    lemma_sliced_valid(child, s2 * n, n2 * n);
    lemma_joined_two(ca, cb);
    slice_keeps_rows(child, s1 * n, n1 * n);
    slice_keeps_rows(child, s2 * n, n2 * n);
    if fixed_parts_fail(m.data_type, ms, n) {
        let (i, k) = choose|i: int, k: int|
            #![trigger values[i * n + k]]
            0 <= i < bits.len() && 0 <= k < n && bits[i] && absent(values[i * n + k]);
        let p = if i < n1 {
            s1 + i
        } else {
            s2 + (i - n1)
        };
        assert(0 <= i * n + k && (i < n1 ==> i * n + k < n1 * n) && (i >= n1 ==> n1 * n <= i * n + k
            < n1 * n + n2 * n)) by (nonlinear_arith)
            requires
                0 <= i < n1 + n2,
                0 <= k < n,
        ;
        assert(s1 * n + (i * n + k) == (s1 + i) * n + k) by (nonlinear_arith);
        assert(s2 * n + (i * n + k - n1 * n) == (s2 + (i - n1)) * n + k) by (nonlinear_arith);
        assert(values[i * n + k] == row(child, p * n + k));
        assert((p * n + k) / n == p && 0 <= p * n + k < m.len * n) by (nonlinear_arith)
            requires
                0 <= p < m.len,
                0 <= k < n,
        ;
        assert(validity(m)[p]);
        assert(!absent(row(m.children[0], p * n + k)));
    }
}

/// Parts of a struct array have no null where none may be if the array has none.
proof fn lemma_parts_honoured(m: ArrayModel, s1: int, n1: int, s2: int, n2: int)
    requires
        valid(m),
        m.data_type.shape is Struct,
        nulls_honoured(m),
        parts_within(m, s1, n1, s2, n2),
    ensures
        !struct_parts_may_fail(m.data_type, two_parts(m, s1, n1, s2, n2)),
{
    let t = m.data_type;
    let ms = two_parts(m, s1, n1, s2, n2);
    let a = sliced(m, s1, n1);
    let b = sliced(m, s2, n2);
    let bits = joined_validity(ms);
    let columns = joined_columns(ms, t.fields.len());
    lemma_sliced_valid(m, s1, n1);
    lemma_sliced_valid(m, s2, n2);
    lemma_joined_two(a, b);
    lemma_sliced_validity(m, s1, n1);
    lemma_sliced_validity(m, s2, n2);
    if unmasked_null(t, bits, columns) {
        let (j, i) = choose|j: int, i: int|
            #![trigger columns[j][i]]
            {
                &&& 0 <= j < columns.len()
                &&& 0 <= i < bits.len()
                &&& !t.fields[j].nullable
                &&& clear_nulls(t.fields[j].data_type)
                &&& bits[i]
                &&& absent(columns[j][i])
            };
        let child = m.children[j];
        assert(valid(child));
        let (ca, cb) = (sliced(child, s1, n1), sliced(child, s2, n2));
        assert(a.children[j] == ca);
        assert(b.children[j] == cb);
        assert(child_models(ms, j) =~= seq![ca, cb]);
        lemma_sliced_valid(child, s1, n1);
        lemma_sliced_valid(child, s2, n2);
        lemma_joined_two(ca, cb);
        slice_keeps_rows(child, s1, n1);
        slice_keeps_rows(child, s2, n2);
        assert(columns[j] == rows(ca) + rows(cb));
        let p = if i < n1 {
            s1 + i
        } else {
            s2 + (i - n1)
        };
        assert(columns[j][i] == row(child, p));
        assert(validity(m)[p]);
    }
}

/// Slicing is undone by concatenation: the two parts that an array is cut into make an array of its
/// type, length, nulls and rows, wherever it is cut, unless a cause of failure is at hand.
pub proof fn halves_make_the_whole(
    m: ArrayModel,
    k: int,
    result: Result<AnyArray, ConcatError>,
)
    requires
        valid(m),
        0 <= k <= m.len,
        result_of(two_parts(m, 0, k, k, m.len - k), result),
        !may_fail(m.data_type, two_parts(m, 0, k, k, m.len - k), Failure::NoRows),
        !may_fail(m.data_type, two_parts(m, 0, k, k, m.len - k), Failure::Keys),
        !may_fail(m.data_type, two_parts(m, 0, k, k, m.len - k), Failure::Values),
        !may_fail(m.data_type, two_parts(m, 0, k, k, m.len - k), Failure::Parts),
    ensures
        result is Ok,
        rows(contents(result->Ok_0)) == rows(m),
        contents(result->Ok_0).data_type == m.data_type,
        contents(result->Ok_0).len == m.len,
        contents(result->Ok_0).nulls == m.nulls,
{
    let rest = m.len - k;
    let ms = two_parts(m, 0, k, k, rest);
    let a = sliced(m, 0, k);
    let b = sliced(m, k, rest);
    lemma_sliced_valid(m, 0, k);
    lemma_sliced_valid(m, k, rest);
    assert(one_type(ms));
    concat_succeeds(ms, result);
    lemma_joined_two(a, b);
    slice_keeps_rows(m, 0, k);
    slice_keeps_rows(m, k, rest);
    assert(rows(a) + rows(b) =~= rows(m));
    lemma_sliced_validity(m, 0, k);
    lemma_sliced_validity(m, k, rest);
    assert(validity(a) + validity(b) =~= validity(m));
    if m.nulls is None {
        assert(!validity(m).contains(false));
    }
}

/// The two parts that an array is cut into are always concatenated to it again if parts of it join:
/// success is owed.
pub proof fn halves_always_make_the_whole(
    m: ArrayModel,
    k: int,
    result: Result<AnyArray, ConcatError>,
)
    requires
        valid(m),
        parts_always_join(m),
        0 <= k <= m.len,
        result_of(two_parts(m, 0, k, k, m.len - k), result),
    ensures
        result is Ok,
        rows(contents(result->Ok_0)) == rows(m),
        contents(result->Ok_0).data_type == m.data_type,
        contents(result->Ok_0).len == m.len,
        contents(result->Ok_0).nulls == m.nulls,
{
    parts_never_fail(m, 0, k, k, m.len - k, Failure::NoRows);
    parts_never_fail(m, 0, k, k, m.len - k, Failure::Keys);
    parts_never_fail(m, 0, k, k, m.len - k, Failure::Values);
    parts_never_fail(m, 0, k, k, m.len - k, Failure::Parts);
    halves_make_the_whole(m, k, result);
}

/// The two parts that an array is cut into make it again, or dictionaries fail whose values Arrow did
/// not find to be shared, though the parts have the same.
pub proof fn halves_fail_only_for_dictionaries(
    m: ArrayModel,
    k: int,
    result: Result<AnyArray, ConcatError>,
)
    requires
        valid(m),
        parts_join(m, Failure::NoRows),
        parts_join(m, Failure::Parts),
        0 <= k <= m.len,
        result_of(two_parts(m, 0, k, k, m.len - k), result),
    ensures
        match result {
            Ok(array) => {
                &&& rows(contents(array)) == rows(m)
                &&& contents(array).data_type == m.data_type
                &&& contents(array).len == m.len
                &&& contents(array).nulls == m.nulls
            },
            Err(error) => error is DictionaryKeyOverflow || error is DictionaryValueOverflow,
        },
{
    let ms = two_parts(m, 0, k, k, m.len - k);
    lemma_halves(m, k);
    lemma_sliced_valid(m, 0, k);
    lemma_sliced_valid(m, k, m.len - k);
    lemma_joined_two(sliced(m, 0, k), sliced(m, k, m.len - k));
    assert(one_type(ms));
    if let Err(error) = result {
        parts_never_fail(m, 0, k, k, m.len - k, Failure::NoRows);
        parts_never_fail(m, 0, k, k, m.len - k, Failure::Parts);
        error_has_a_cause(m.data_type, ms, error);
    }
}

/// Slicing is undone by concatenation: the two parts that a dictionary array is cut into, whose values
/// are shared, always make an array of its type, length, nulls and rows, which keeps the values,
/// whatever they are and however many.
pub proof fn shared_halves_make_the_whole(
    m: ArrayModel,
    k: int,
    result: Result<AnyArray, ConcatError>,
)
    requires
        valid(m),
        m.data_type.shape is Dictionary,
        0 <= k <= m.len,
        known_outcome(two_parts(m, 0, k, k, m.len - k), result, true),
    ensures
        all_alike(child_models(two_parts(m, 0, k, k, m.len - k), 0)),
        result is Ok,
        rows(contents(result->Ok_0)) == rows(m),
        rows(contents(result->Ok_0).children[0]) == rows(m.children[0]),
        contents(result->Ok_0).data_type == m.data_type,
        contents(result->Ok_0).len == m.len,
        contents(result->Ok_0).nulls == m.nulls,
{
    let ms = two_parts(m, 0, k, k, m.len - k);
    lemma_halves(m, k);
    assert(child_models(ms, 0) =~= seq![m.children[0], m.children[0]]);
    lemma_sliced_valid(m, 0, k);
    lemma_sliced_valid(m, k, m.len - k);
    lemma_joined_two(sliced(m, 0, k), sliced(m, k, m.len - k));
}

// Structs

/// Structs hold the concatenated columns.
pub proof fn struct_holds_concatenated_columns(
    ms: Seq<ArrayModel>,
    result: Result<AnyArray, ConcatError>,
    j: int,
)
    requires
        result_of(ms, result),
        result is Ok,
        one_type(ms),
        ms.len() >= 2,
        ms[0].data_type.shape is Struct,
        0 <= j < ms[0].data_type.fields.len(),
    ensures
        contents(result->Ok_0).children.len() == ms[0].data_type.fields.len(),
        concatenates(child_models(ms, j), contents(result->Ok_0).children[j]),
        laid_out(
            ms[0].data_type.fields[j].data_type,
            child_models(ms, j),
            contents(result->Ok_0).children[j],
        ),
        contents(result->Ok_0).nulls == joined_nulls(ms),
{
    let t = ms[0].data_type;
    assert(t.fields[j].data_type == t.fields[j].data_type);
}

/// A struct whose column fails in any case fails, with the error of that column or of one before it.
pub proof fn struct_fails_with_its_column(
    ms: Seq<ArrayModel>,
    result: Result<AnyArray, ConcatError>,
    j: int,
)
    requires
        result_of(ms, result),
        one_type(ms),
        ms.len() >= 2,
        ms[0].data_type.shape is Struct,
        typed_children(ms[0].data_type, ms),
        0 <= j < ms[0].data_type.fields.len(),
        refused(ms[0].data_type.fields[j].data_type, child_models(ms, j)),
    ensures
        result matches Err(error) && exists|k: int|
            0 <= k <= j && #[trigger] result_of(child_models(ms, k), Err(error)),
{
    let t = ms[0].data_type;
    assert(t.fields[j].data_type == t.fields[j].data_type);
    assert(refused(t, ms));
    let error = result->Err_0;
    if exists|k: int|
        0 <= k < t.fields.len() && explained(
            (#[trigger] t.fields[k]).data_type,
            child_models(ms, k),
            error,
        ) && columns_pass(t, ms, k) {
        let k = choose|k: int|
            0 <= k < t.fields.len() && explained(
                (#[trigger] t.fields[k]).data_type,
                child_models(ms, k),
                error,
            ) && columns_pass(t, ms, k);
        lemma_column_result(ms, k, error);
    }
}

/// The error of a struct is the error of a column none of those before which fails in any case, or tells
/// that Arrow refused to put the columns together, none of which fails in any case.
pub proof fn struct_error_is_of_a_column(ms: Seq<ArrayModel>, error: ConcatError)
    requires
        result_of(ms, Err(error)),
        one_type(ms),
        ms.len() >= 2,
        ms[0].data_type.shape is Struct,
        typed_children(ms[0].data_type, ms),
    ensures
        (exists|k: int|
            0 <= k < ms[0].data_type.fields.len() && #[trigger] result_of(
                child_models(ms, k),
                Err(error),
            ) && columns_pass(ms[0].data_type, ms, k)) || {
            &&& error is Arrow
            &&& struct_parts_may_fail(ms[0].data_type, ms)
            &&& columns_pass(ms[0].data_type, ms, ms[0].data_type.fields.len() as int)
        },
{
    let t = ms[0].data_type;
    if exists|k: int|
        0 <= k < t.fields.len() && explained(
            (#[trigger] t.fields[k]).data_type,
            child_models(ms, k),
            error,
        ) && columns_pass(t, ms, k) {
        let k = choose|k: int|
            0 <= k < t.fields.len() && explained(
                (#[trigger] t.fields[k]).data_type,
                child_models(ms, k),
                error,
            ) && columns_pass(t, ms, k);
        lemma_column_result(ms, k, error);
    }
}

/// An error that explains a column is one that concatenating the column may give.
proof fn lemma_column_result(ms: Seq<ArrayModel>, k: int, error: ConcatError)
    requires
        ms.len() >= 2,
        typed_children(ms[0].data_type, ms),
        0 <= k < ms[0].data_type.fields.len(),
        explained(ms[0].data_type.fields[k].data_type, child_models(ms, k), error),
    ensures
        result_of(child_models(ms, k), Err(error)),
{
    let cs = child_models(ms, k);
    assert forall|i: int| 0 <= i < cs.len() implies (#[trigger] cs[i]).data_type
        == ms[0].data_type.fields[k].data_type by {
        assert(ms[i].children[k].data_type == ms[0].data_type.fields[k].data_type);
    }
    assert(one_type(cs));
}

// Runs

/// Whether arrays of type `t` are sturdy, whatever they hold.
pub open spec fn plain(t: TypeModel) -> bool
    decreases t,
{
    match t.shape {
        Shape::Boolean => false,
        Shape::Struct => false,
        Shape::Union { .. } => false,
        Shape::ListView => false,
        Shape::Runs => t.fields.len() > 1 && !t.fields[0].nullable && plain(t.fields[1].data_type),
        Shape::Dictionary => t.fields.len() > 1 && plain(t.fields[1].data_type),
        Shape::List { .. } => t.fields.len() > 0 && plain(t.fields[0].data_type),
        Shape::FixedList(_) => t.fields.len() > 0 && plain(t.fields[0].data_type),
        Shape::MapEntries => t.fields.len() > 0 && plain(t.fields[0].data_type),
        _ => true,
    }
}

/// Arrays of such a type are sturdy.
pub proof fn lemma_plain(m: ArrayModel)
    requires
        valid(m),
        plain(m.data_type),
    ensures
        sturdy(m),
    decreases m,
{
    match m.data_type.shape {
        Shape::Runs => lemma_plain(m.children[0]),
        Shape::Dictionary => lemma_plain(m.children[0]),
        Shape::List { .. } => lemma_plain(m.children[0]),
        Shape::FixedList(_) => lemma_plain(m.children[0]),
        Shape::MapEntries => lemma_plain(m.children[0]),
        _ => {},
    }
}

/// Whether two or more arrays of type `t` make a sturdy array.
pub open spec fn hardy(t: TypeModel) -> bool
    decreases t,
{
    match t.shape {
        Shape::Boolean => true,
        Shape::List { .. } => t.fields.len() > 0 && hardy(t.fields[0].data_type),
        Shape::Struct => forall|j: int|
            0 <= j < t.fields.len() ==> hardy((#[trigger] t.fields[j]).data_type),
        _ => plain(t),
    }
}

/// Two or more arrays of such a type make a sturdy array.
pub proof fn lemma_hardy(t: TypeModel, ms: Seq<ArrayModel>, out: ArrayModel)
    requires
        hardy(t),
        ms.len() >= 2,
        valid_of_type(t, ms),
        fits(t, ms),
        concatenates(ms, out),
        laid_out(t, ms, out),
    ensures
        sturdy(out),
    decreases t,
{
    assert(valid(ms[0]));
    assert(ms[0].data_type == t);
    assert(one_type(ms));
    match t.shape {
        Shape::Boolean => {},
        Shape::List { .. } => {
            let items = used_models(ms);
            lemma_used_type(ms);
            assert forall|i: int| 0 <= i < items.len() implies (#[trigger] items[i]).data_type
                == t.fields[0].data_type by {
                assert(items[i].data_type == items[0].data_type);
            }
            lemma_hardy(t.fields[0].data_type, items, out.children[0]);
        },
        Shape::Struct => {
            assert forall|j: int| 0 <= j < out.children.len() implies sturdy(
                #[trigger] out.children[j],
            ) && out.children[j].data_type == t.fields[j].data_type by {
                let field = t.fields[j];
                lemma_columns_of_type(t, ms, j);
                assert(child_models(ms, j)[0].data_type == field.data_type);
                lemma_hardy(field.data_type, child_models(ms, j), out.children[j]);
            }
        },
        _ => lemma_plain(out),
    }
}

/// Arrow does not refuse runs of values that are sturdy whatever they hold, nor those that two or more
/// arrays make a sturdy array of, if the field of the run ends takes no null.
pub proof fn run_values_are_accepted(t: TypeModel, ms: Seq<ArrayModel>)
    requires
        t.shape is Runs,
        t.fields.len() == 2,
        !t.fields[0].nullable,
        valid_of_type(t, ms),
        ms.len() >= 2,
        fits(t, ms),
        plain(t.fields[1].data_type) || hardy(t.fields[1].data_type) && run_models(ms).len() >= 2,
        run_models(ms).len() > 0,
    ensures
        !run_parts_may_fail(t, run_models(ms)),
{
    let vt = t.fields[1].data_type;
    let values = run_models(ms);
    assert(valid(ms[0]));
    assert(ms[0].data_type == t);
    assert(one_type(ms));
    lemma_run_models(ms);
    assert forall|i: int| 0 <= i < values.len() implies (#[trigger] values[i]).data_type == vt by {
        assert(values[i].data_type == values[0].data_type);
    }
    assert forall|v: ArrayModel| #[trigger] run_values_of(vt, values, v) implies sturdy(v) by {
        assert(values[0].data_type == vt);
        if plain(vt) {
            lemma_plain(v);
        } else {
            lemma_hardy(vt, values, v);
        }
    }
}

// An array without slots among others

/// Whether concatenating arrays of type `t` fails only where it has to: they hold no dictionaries, runs
/// or list views, and where a field takes no null, the nulls of its values are those of their slots.
/// What dense unions hold never fails, for they may hold more than they have slots.
pub open spec fn settled(t: TypeModel) -> bool
    decreases t,
{
    match t.shape {
        Shape::Dictionary => false,
        Shape::Runs => false,
        Shape::ListView => false,
        Shape::List { .. } => {
            &&& t.fields.len() > 0
            &&& t.fields[0].nullable || t.fields[0].data_type.shape !is Union
            &&& settled(t.fields[0].data_type)
        },
        Shape::Struct => forall|j: int|
            0 <= j < t.fields.len() ==> {
                &&& settled((#[trigger] t.fields[j]).data_type)
                &&& t.fields[j].nullable || clear_nulls(t.fields[j].data_type)
            },
        Shape::FixedList(_) => {
            &&& t.fields.len() > 0
            &&& t.fields[0].nullable || clear_nulls(t.fields[0].data_type)
            &&& settled(t.fields[0].data_type)
        },
        Shape::MapEntries => t.fields.len() > 0 && settled(t.fields[0].data_type),
        Shape::Union { dense } => forall|j: int|
            0 <= j < t.fields.len() ==> {
                &&& settled((#[trigger] t.fields[j]).data_type)
                &&& dense ==> never_fails(t.fields[j].data_type)
            },
        _ => true,
    }
}

/// Arrays of a settled type fail only where they are refused.
pub proof fn settled_types_fail_only_if_refused(
    t: TypeModel,
    ms: Seq<ArrayModel>,
    cause: Failure,
)
    requires
        settled(t),
        valid_of_type(t, ms),
        fits(t, ms),
        !refused(t, ms),
    ensures
        !may_fail(t, ms, cause),
    decreases t,
{
    if ms.len() >= 2 {
        assert(valid(ms[0]));
        assert(ms[0].data_type == t);
        assert(one_type(ms));
        match t.shape {
            Shape::List { .. } => {
                let items = used_models(ms);
                lemma_used_type(ms);
                assert(valid_of_type(t.fields[0].data_type, items)) by {
                    assert forall|i: int| 0 <= i < items.len() implies (
                    #[trigger] items[i]).data_type == t.fields[0].data_type by {
                        assert(items[i].data_type == items[0].data_type);
                    }
                }
                settled_types_fail_only_if_refused(t.fields[0].data_type, items, cause);
                if some_hold_null(items) {
                    let i = choose|i: int| 0 <= i < items.len() && holds_null(#[trigger] items[i]);
                    assert(items[i].data_type == t.fields[0].data_type);
                    assert(valid(items[i]));
                    assert(settled(t.fields[0].data_type));
                    assert(t.fields[0].data_type.shape !is Dictionary);
                    assert(t.fields[0].data_type.shape !is Runs);
                    if items[i].nulls is Some {
                        lemma_joined_nulls(items);
                        assert(joined_nulls(items) is Some);
                    } else if !t.fields[0].nullable {
                        assert(items[i].data_type.shape is Null);
                        lemma_part_total(items, i);
                        assert(total(items) > 0);
                    }
                }
                assert(!list_parts_may_fail(t, items));
            },
            Shape::Struct => {
                assert forall|j: int| 0 <= j < t.fields.len() implies !may_fail(
                    (#[trigger] t.fields[j]).data_type,
                    child_models(ms, j),
                    cause,
                ) by {
                    lemma_columns_of_type(t, ms, j);
                    settled_types_fail_only_if_refused(
                        t.fields[j].data_type,
                        child_models(ms, j),
                        cause,
                    );
                }
                assert(!unclear_nulls(t));
                assert(!struct_parts_may_fail(t, ms));
            },
            Shape::FixedList(size) => {
                if !copyable(t, ms) {
                    lemma_fixed_of_type(t, ms, size);
                    settled_types_fail_only_if_refused(
                        t.fields[0].data_type,
                        fixed_models(ms, size as int),
                        cause,
                    );
                }
            },
            Shape::MapEntries => {
                if !copyable(t, ms) {
                    let entries = used_models(ms);
                    lemma_used_type(ms);
                    assert(valid_of_type(t.fields[0].data_type, entries)) by {
                        assert forall|i: int| 0 <= i < entries.len() implies (
                        #[trigger] entries[i]).data_type == t.fields[0].data_type by {
                            assert(entries[i].data_type == entries[0].data_type);
                        }
                    }
                    settled_types_fail_only_if_refused(t.fields[0].data_type, entries, cause);
                }
            },
            Shape::Union { .. } => {
                if !copyable(t, ms) {
                    assert forall|j: int| 0 <= j < t.fields.len() implies !may_fail(
                        (#[trigger] t.fields[j]).data_type,
                        child_models(ms, j),
                        cause,
                    ) by {
                        lemma_columns_of_type(t, ms, j);
                        settled_types_fail_only_if_refused(
                            t.fields[j].data_type,
                            child_models(ms, j),
                            cause,
                        );
                    }
                }
            },
            _ => {},
        }
    }
}

/// Arrays have no fewer slots than one of them.
proof fn lemma_part_total(ms: Seq<ArrayModel>, i: int)
    requires
        0 <= i < ms.len(),
    ensures
        ms[i].len <= total(ms),
    decreases ms.len(),
{
    if i < ms.len() - 1 {
        lemma_part_total(ms.drop_last(), i);
    }
}

/// The columns of struct arrays and the children of unions are valid arrays of the types of their fields.
proof fn lemma_columns_of_type(t: TypeModel, ms: Seq<ArrayModel>, j: int)
    requires
        t.shape is Struct || t.shape is Union,
        valid_of_type(t, ms),
        typed_children(t, ms),
        ms.len() > 0,
        0 <= j < t.fields.len(),
    ensures
        valid_of_type(t.fields[j].data_type, child_models(ms, j)),
{
    assert forall|i: int| 0 <= i < ms.len() implies valid(#[trigger] child_models(ms, j)[i])
        && child_models(ms, j)[i].data_type == t.fields[j].data_type by {
        assert(valid(ms[i]));
        assert(ms[i].data_type == t);
        assert(valid(ms[i].children[j]));
    }
}

/// Whether arrays that can be copied whole still can be among more arrays, and so can what they hold.
pub open spec fn still_copied(t: TypeModel, ms: Seq<ArrayModel>, all: Seq<ArrayModel>) -> bool
    decreases t,
{
    match t.shape {
        Shape::List { .. } => t.fields.len() > 0 && still_copied(
            t.fields[0].data_type,
            used_models(ms),
            used_models(all),
        ),
        Shape::Struct => forall|j: int|
            0 <= j < t.fields.len() ==> still_copied(
                (#[trigger] t.fields[j]).data_type,
                child_models(ms, j),
                child_models(all, j),
            ),
        Shape::FixedList(size) => {
            &&& copyable(t, ms) ==> copyable(t, all)
            &&& t.fields.len() > 0 && still_copied(
                t.fields[0].data_type,
                fixed_models(ms, size as int),
                fixed_models(all, size as int),
            )
        },
        Shape::MapEntries => {
            &&& copyable(t, ms) ==> copyable(t, all)
            &&& t.fields.len() > 0 && still_copied(
                t.fields[0].data_type,
                used_models(ms),
                used_models(all),
            )
        },
        Shape::Union { .. } => {
            &&& copyable(t, ms) ==> copyable(t, all)
            &&& forall|j: int|
                0 <= j < t.fields.len() ==> still_copied(
                    (#[trigger] t.fields[j]).data_type,
                    child_models(ms, j),
                    child_models(all, j),
                )
        },
        _ => true,
    }
}

/// An array without slots among others leaves it to them whether they are refused.
proof fn lemma_empty_not_refused(
    t: TypeModel,
    front: Seq<ArrayModel>,
    empty: ArrayModel,
    back: Seq<ArrayModel>,
)
    requires
        valid_of_type(t, front + seq![empty] + back),
        fits(t, front + seq![empty] + back),
        settled(t),
        empty.len == 0,
        front.len() + back.len() >= 2,
        still_copied(t, front + back, front + seq![empty] + back),
        !refused(t, front + back),
    ensures
        !refused(t, front + seq![empty] + back),
    decreases t,
{
    let all = front + seq![empty] + back;
    let ms = front + back;
    let e = front.len() as int;
    assert(all[e] == empty);
    assert(valid(all[0]));
    assert(all[0].data_type == t);
    assert(valid(all[e]));
    assert(all[e].data_type == t);
    assert(one_type(all));
    match t.shape {
        Shape::List { .. } => {
            let ft = t.fields[0].data_type;
            lemma_used_type(all);
            lemma_list_rows(empty);
            let (uf, ue, ub) = (used_models(front), used(empty), used_models(back));
            assert(used_models(all) =~= uf + seq![ue] + ub);
            assert(used_models(ms) =~= uf + ub);
            assert(valid_of_type(ft, uf + seq![ue] + ub)) by {
                assert forall|i: int| 0 <= i < all.len() implies (#[trigger] used_models(
                    all,
                )[i]).data_type == ft by {
                    assert(used_models(all)[i].data_type == used_models(all)[0].data_type);
                }
            }
            lemma_empty_not_refused(ft, uf, ue, ub);
            lemma_empty_validity(uf, ue, ub);
        },
        Shape::Struct => {
            assert forall|j: int| 0 <= j < t.fields.len() implies {
                &&& !refused((#[trigger] t.fields[j]).data_type, child_models(all, j))
                &&& joined(child_models(all, j)) == joined(child_models(ms, j))
            } by {
                let ft = t.fields[j].data_type;
                let (cf, ce, cb) = (
                    child_models(front, j),
                    empty.children[j],
                    child_models(back, j),
                );
                lemma_columns_of_type(t, all, j);
                assert(child_models(all, j) =~= cf + seq![ce] + cb);
                assert(child_models(ms, j) =~= cf + cb);
                assert(valid(child_models(all, j)[e]));
                lemma_empty_not_refused(ft, cf, ce, cb);
                empty_array_adds_nothing(cf, ce, cb);
            }
            assert(joined_columns(all, t.fields.len()) =~= joined_columns(ms, t.fields.len()));
            lemma_empty_validity(front, empty, back);
        },
        Shape::FixedList(size) => {
            if refused(t, all) {
                let n = size as int;
                let ft = t.fields[0].data_type;
                lemma_fixed_of_type(t, all, size);
                let fe = sliced(empty.children[0], 0, empty.len * n);
                let (ff, fb) = (fixed_models(front, n), fixed_models(back, n));
                assert(0 * n == 0) by (nonlinear_arith);
                assert(fixed_models(all, n) =~= ff + seq![fe] + fb);
                assert(fixed_models(ms, n) =~= ff + fb);
                assert(valid(fixed_models(all, n)[e]));
                lemma_empty_not_refused(ft, ff, fe, fb);
                empty_array_adds_nothing(ff, fe, fb);
                lemma_empty_validity(front, empty, back);
            }
        },
        Shape::MapEntries => {
            if refused(t, all) {
                let ft = t.fields[0].data_type;
                lemma_used_type(all);
                lemma_list_rows(empty);
                let (uf, ue, ub) = (used_models(front), used(empty), used_models(back));
                assert(used_models(all) =~= uf + seq![ue] + ub);
                assert(used_models(ms) =~= uf + ub);
                assert(valid_of_type(ft, uf + seq![ue] + ub)) by {
                    assert forall|i: int| 0 <= i < all.len() implies (#[trigger] used_models(
                        all,
                    )[i]).data_type == ft by {
                        assert(used_models(all)[i].data_type == used_models(all)[0].data_type);
                    }
                }
                lemma_empty_not_refused(ft, uf, ue, ub);
                lemma_empty_validity(uf, ue, ub);
            }
        },
        Shape::Union { dense } => {
            if refused(t, all) {
                let j = choose|j: int|
                    0 <= j < t.fields.len() && refused(
                        (#[trigger] t.fields[j]).data_type,
                        child_models(all, j),
                    );
                let ft = t.fields[j].data_type;
                let (cf, ce, cb) = (
                    child_models(front, j),
                    empty.children[j],
                    child_models(back, j),
                );
                lemma_columns_of_type(t, all, j);
                assert(child_models(all, j) =~= cf + seq![ce] + cb);
                assert(child_models(ms, j) =~= cf + cb);
                assert(valid(child_models(all, j)[e]));
                if dense {
                    refusal_has_a_cause(ft, child_models(all, j));
                    lemma_never_fails(ft, child_models(all, j), Failure::NoRows);
                    lemma_never_fails(ft, child_models(all, j), Failure::Parts);
                } else {
                    lemma_empty_not_refused(ft, cf, ce, cb);
                }
            }
        },
        _ => {},
    }
}

/// An array without slots adds no validity bits and no slots.
proof fn lemma_empty_validity(
    front: Seq<ArrayModel>,
    empty: ArrayModel,
    back: Seq<ArrayModel>,
)
    requires
        valid(empty),
        empty.len == 0,
    ensures
        joined_validity(front + seq![empty] + back) == joined_validity(front + back),
        total(front + seq![empty] + back) == total(front + back),
{
    joined_is_additive(front + seq![empty], back);
    joined_is_additive(front, seq![empty]);
    joined_is_additive(front, back);
    lemma_joined_one(empty);
    assert(validity(empty) =~= seq![]);
    assert(joined_validity(front) + validity(empty) =~= joined_validity(front));
}

/// An array without slots is an identity element: where arrays of a settled type are concatenated, they
/// are with it too, wherever it stands, and the result has the same type, length, nulls and rows.
///
/// One array alone is given back even if it would be refused among others, having a null where its
/// type takes none; then this says nothing. Nor does it if the array without slots brings so many view
/// buffers that arrays which Arrow could copy whole no longer can be.
pub proof fn empty_array_keeps_the_result(
    front: Seq<ArrayModel>,
    empty: ArrayModel,
    back: Seq<ArrayModel>,
    result: Result<AnyArray, ConcatError>,
    with_empty: Result<AnyArray, ConcatError>,
)
    requires
        front.len() + back.len() > 0,
        valid_of_type(empty.data_type, front + seq![empty] + back),
        settled(empty.data_type),
        empty.len == 0,
        fits(empty.data_type, front + seq![empty] + back),
        result_of(front + back, result),
        result is Ok,
        result_of(front + seq![empty] + back, with_empty),
        front.len() + back.len() == 1 ==> !refused(
            empty.data_type,
            front + seq![empty] + back,
        ),
        still_copied(empty.data_type, front + back, front + seq![empty] + back),
    ensures
        with_empty is Ok,
        rows(contents(with_empty->Ok_0)) == rows(contents(result->Ok_0)),
        contents(with_empty->Ok_0).data_type == contents(result->Ok_0).data_type,
        contents(with_empty->Ok_0).len == contents(result->Ok_0).len,
        contents(with_empty->Ok_0).nulls == contents(result->Ok_0).nulls,
{
    let t = empty.data_type;
    let all = front + seq![empty] + back;
    let ms = front + back;
    let e = front.len() as int;
    assert(all[e] == empty);
    assert(valid(all[e]));
    assert(all[0].data_type == t);
    assert forall|i: int| 0 <= i < ms.len() implies (#[trigger] ms[i]).data_type == t by {
        if i < e {
            assert(ms[i] == all[i]);
        } else {
            assert(ms[i] == all[i + 1]);
        }
    }
    assert(one_type(ms));
    assert(one_type(all));
    if ms.len() >= 2 {
        assert(!refused(t, ms));
        lemma_empty_not_refused(t, front, empty, back);
    }
    settled_types_fail_only_if_refused(t, all, Failure::NoRows);
    settled_types_fail_only_if_refused(t, all, Failure::Keys);
    settled_types_fail_only_if_refused(t, all, Failure::Values);
    settled_types_fail_only_if_refused(t, all, Failure::Parts);
    concat_succeeds(all, with_empty);
    empty_array_adds_nothing(front, empty, back);
    lemma_empty_validity(front, empty, back);
}

// Parts of one batch

/// The part of a batch that starts at row `start` and has `len` rows.
pub open spec fn sliced_batch(b: BatchModel, start: int, len: int) -> BatchModel {
    BatchModel {
        schema: b.schema,
        columns: Seq::new(b.columns.len(), |i: int| sliced(b.columns[i], start, len)),
        len: len as nat,
    }
}

/// Whether a batch has the schema, the length and, column by column, the type, the nulls and the rows
/// of another.
pub open spec fn same_batch(a: BatchModel, b: BatchModel) -> bool {
    &&& a.schema == b.schema
    &&& a.len == b.len
    &&& a.columns.len() == b.columns.len()
    &&& forall|i: int|
        0 <= i < b.columns.len() ==> {
            &&& rows(#[trigger] a.columns[i]) == rows(b.columns[i])
            &&& a.columns[i].data_type == b.columns[i].data_type
            &&& a.columns[i].nulls == b.columns[i].nulls
        }
}

/// Slicing is undone by concatenation: the two parts that a batch is cut into make the batch again under
/// its own schema, wherever it is cut, if parts of its columns join.
pub proof fn batch_halves_make_the_whole(
    b: BatchModel,
    k: int,
    result: Result<Batch, ConcatError>,
)
    requires
        valid_batch(b),
        b.columns.len() > 0,
        forall|i: int| 0 <= i < b.columns.len() ==> valid(#[trigger] b.columns[i]),
        forall|i: int| 0 <= i < b.columns.len() ==> parts_always_join(#[trigger] b.columns[i]),
        0 <= k <= b.len,
        batches_result(
            b.schema,
            seq![sliced_batch(b, 0, k), sliced_batch(b, k, b.len - k)],
            result,
        ),
    ensures
        result is Ok,
        same_batch(batch_contents(result->Ok_0), b),
{
    let rest = b.len - k;
    let bs = seq![sliced_batch(b, 0, k), sliced_batch(b, k, rest)];
    assert forall|i: int| 0 <= i < b.columns.len() implies {
        &&& #[trigger] column_models(bs, i) == two_parts(b.columns[i], 0, k, k, rest)
        &&& joined_nulls(column_models(bs, i)) == b.columns[i].nulls
        &&& joined(column_models(bs, i)) == rows(b.columns[i])
    } by {
        let m = b.columns[i];
        assert(valid(m));
        assert(column_models(bs, i) =~= two_parts(m, 0, k, k, rest));
        lemma_halves(m, k);
    }
    if let Err(error) = result {
        if exists|i: int| 0 <= i < b.columns.len() && #[trigger] first_failure(bs, i, error) {
            let i = choose|i: int| 0 <= i < b.columns.len() && #[trigger] first_failure(
                bs,
                i,
                error,
            );
            let m = b.columns[i];
            assert(valid(m));
            assert(parts_always_join(m));
            assert(column_models(bs, i) == two_parts(m, 0, k, k, rest));
            halves_always_make_the_whole(m, k, Err(error));
        } else {
            lemma_suited(b, bs);
        }
    } else {
        let out = batch_contents(result->Ok_0);
        assert(bs.drop_last() =~= seq![bs[0]]);
        assert(seq![bs[0]].drop_last() =~= seq![]);
        reveal_with_fuel(rows_total, 3);
        assert(rows_total(bs) == b.len);
        assert forall|i: int| 0 <= i < b.columns.len() implies {
            &&& rows(#[trigger] out.columns[i]) == rows(b.columns[i])
            &&& out.columns[i].data_type == b.columns[i].data_type
            &&& out.columns[i].nulls == b.columns[i].nulls
        } by {
            assert(concatenates(column_models(bs, i), out.columns[i]));
            assert(column_models(bs, i) == two_parts(b.columns[i], 0, k, k, rest));
        }
    }
}

/// The two parts that an array is cut into join to its rows and nulls.
proof fn lemma_halves(m: ArrayModel, k: int)
    requires
        valid(m),
        0 <= k <= m.len,
    ensures
        joined(two_parts(m, 0, k, k, m.len - k)) == rows(m),
        joined_nulls(two_parts(m, 0, k, k, m.len - k)) == m.nulls,
{
    let rest = m.len - k;
    let a = sliced(m, 0, k);
    let b = sliced(m, k, rest);
    lemma_sliced_valid(m, 0, k);
    lemma_sliced_valid(m, k, rest);
    lemma_joined_two(a, b);
    slice_keeps_rows(m, 0, k);
    slice_keeps_rows(m, k, rest);
    assert(rows(a) + rows(b) =~= rows(m));
    lemma_sliced_validity(m, 0, k);
    lemma_sliced_validity(m, k, rest);
    assert(validity(a) + validity(b) =~= validity(m));
    if m.nulls is None {
        assert(!validity(m).contains(false));
    }
}

/// A schema does not refuse parts of a batch whose columns suit it.
proof fn lemma_suited(b: BatchModel, bs: Seq<BatchModel>)
    requires
        bs.len() > 0,
        b.columns.len() == b.schema.fields.len(),
        !unsuited(b.schema.fields, b.columns),
        forall|i: int|
            0 <= i < b.columns.len() ==> (#[trigger] bs[0].columns[i]).data_type
                == b.columns[i].data_type,
        forall|i: int|
            0 <= i < b.columns.len() ==> joined_nulls(#[trigger] column_models(bs, i))
                == b.columns[i].nulls,
    ensures
        !schema_refuses(b.schema, bs),
{
    if schema_refuses(b.schema, bs) {
        let i = choose|i: int|
            0 <= i < b.schema.fields.len() && {
                ||| (#[trigger] b.schema.fields[i]).data_type != bs[0].columns[i].data_type
                ||| !b.schema.fields[i].nullable && joined_nulls(column_models(bs, i)) is Some
            };
        assert(b.columns[i].data_type == bs[0].columns[i].data_type);
        assert(unsuited(b.schema.fields, b.columns));
    }
}

/// One batch alone is given back under its own schema.
pub proof fn one_batch_makes_itself(b: BatchModel, result: Result<Batch, ConcatError>)
    requires
        valid_batch(b),
        b.columns.len() > 0,
        forall|i: int| 0 <= i < b.columns.len() ==> valid(#[trigger] b.columns[i]),
        batches_result(b.schema, seq![b], result),
    ensures
        result is Ok,
        same_batch(batch_contents(result->Ok_0), b),
{
    let bs = seq![b];
    assert forall|i: int| 0 <= i < b.columns.len() implies {
        &&& #[trigger] column_models(bs, i) == seq![b.columns[i]]
        &&& joined_nulls(column_models(bs, i)) == b.columns[i].nulls
        &&& joined(column_models(bs, i)) == rows(b.columns[i])
    } by {
        assert(valid(b.columns[i]));
        assert(column_models(bs, i) =~= seq![b.columns[i]]);
        lemma_joined_one(b.columns[i]);
    }
    if let Err(error) = result {
        if exists|i: int| 0 <= i < b.columns.len() && #[trigger] first_failure(bs, i, error) {
            let i = choose|i: int| 0 <= i < b.columns.len() && #[trigger] first_failure(
                bs,
                i,
                error,
            );
            assert(column_models(bs, i) == seq![b.columns[i]]);
            assert(false);
        } else {
            lemma_suited(b, bs);
        }
    } else {
        let out = batch_contents(result->Ok_0);
        assert(bs.drop_last() =~= seq![]);
        reveal_with_fuel(rows_total, 2);
        assert(rows_total(bs) == b.len);
        assert forall|i: int| 0 <= i < b.columns.len() implies {
            &&& rows(#[trigger] out.columns[i]) == rows(b.columns[i])
            &&& out.columns[i].data_type == b.columns[i].data_type
            &&& out.columns[i].nulls == b.columns[i].nulls
        } by {
            assert(concatenates(column_models(bs, i), out.columns[i]));
            assert(column_models(bs, i) == seq![b.columns[i]]);
        }
    }
}

} // verus!

//! How the rows of arrays that lie one after the other follow from their parts.
use vstd::prelude::*;

use crate::limits::{child_models, extent, first_run, run_count, run_values, sum, used, used_models};
use crate::model::{
    child_row, concatenates, holds_null, items, joined, joined_nulls, joined_validity, no_new_nulls,
    null_at, rising, row, rows, run_of, some_nulls, total, valid, validity, ArrayModel, Value,
};
use crate::slices::{lemma_sliced_row, lemma_sliced_valid, slice_keeps_rows};

verus! {

/// Whether every array is one that Arrow allows.
pub open spec fn all_valid(ms: Seq<ArrayModel>) -> bool {
    forall|i: int| 0 <= i < ms.len() ==> valid(#[trigger] ms[i])
}

/// Whether every array has the type of the first.
pub open spec fn one_type(ms: Seq<ArrayModel>) -> bool {
    forall|i: int| 0 <= i < ms.len() ==> (#[trigger] ms[i]).data_type == ms[0].data_type
}

/// The first `i + 1` arrays are the first `i` and the next.
pub proof fn lemma_take_step<A>(s: Seq<A>, i: int)
    requires
        0 <= i < s.len(),
    ensures
        s.take(i + 1).drop_last() == s.take(i),
        s.take(i + 1).last() == s[i],
        s.take(i + 1) == s.take(i).push(s[i]),
{
    assert(s.take(i + 1).drop_last() =~= s.take(i));
    assert(s.take(i + 1) =~= s.take(i).push(s[i]));
}

/// The first arrays have no more slots than all.
pub proof fn lemma_total_prefix(ms: Seq<ArrayModel>, i: int)
    requires
        0 <= i <= ms.len(),
    ensures
        total(ms.take(i)) <= total(ms),
    decreases ms.len() - i,
{
    if i < ms.len() {
        lemma_take_step(ms, i);
        lemma_total_prefix(ms, i + 1);
    } else {
        assert(ms.take(i) =~= ms);
    }
}

/// The joined rows and validity bits are as many as the slots.
pub proof fn lemma_joined_len(ms: Seq<ArrayModel>)
    requires
        all_valid(ms),
    ensures
        joined(ms).len() == total(ms),
        joined_validity(ms).len() == total(ms),
    decreases ms.len(),
{
    if ms.len() > 0 {
        assert forall|i: int| 0 <= i < ms.drop_last().len() implies valid(
            #[trigger] ms.drop_last()[i],
        ) by {
            assert(valid(ms[i]));
        }
        lemma_joined_len(ms.drop_last());
        assert(valid(ms[ms.len() - 1]));
        assert(validity(ms.last()).len() == ms.last().len);
    }
}

/// The joined validity has a null bit if and only if one of the arrays has a null slot.
pub proof fn lemma_joined_nulls(ms: Seq<ArrayModel>)
    requires
        all_valid(ms),
    ensures
        joined_validity(ms).contains(false) <==> exists|i: int|
            0 <= i < ms.len() && (#[trigger] ms[i]).nulls is Some,
    decreases ms.len(),
{
    if ms.len() > 0 {
        let front = ms.drop_last();
        let last = ms.last();
        assert(valid(ms[ms.len() - 1]));
        assert forall|i: int| 0 <= i < front.len() implies valid(#[trigger] front[i]) by {
            assert(valid(ms[i]));
        }
        lemma_joined_nulls(front);
        let bits = joined_validity(front);
        let all = joined_validity(ms);
        assert(all =~= bits + validity(last));
        if bits.contains(false) {
            let k = choose|k: int| 0 <= k < bits.len() && bits[k] == false;
            assert(all[k] == false);
            let i = choose|i: int| 0 <= i < front.len() && (#[trigger] front[i]).nulls is Some;
            assert(ms[i].nulls is Some);
        }
        if last.nulls is Some {
            let k = choose|k: int| 0 <= k < validity(last).len() && validity(last)[k] == false;
            assert(all[bits.len() + k] == false);
            assert(ms[ms.len() - 1].nulls is Some);
        }
        if all.contains(false) {
            let k = choose|k: int| 0 <= k < all.len() && all[k] == false;
            if k < bits.len() {
                assert(bits[k] == false);
            } else {
                assert(validity(last)[k - bits.len()] == false);
                assert(last.nulls is Some);
            }
        }
        if exists|i: int| 0 <= i < ms.len() && (#[trigger] ms[i]).nulls is Some {
            let i = choose|i: int| 0 <= i < ms.len() && (#[trigger] ms[i]).nulls is Some;
            if i < front.len() {
                assert(front[i].nulls is Some);
            }
        }
    }
}

/// Arrays whose nulls are those of their slots make no new ones.
pub proof fn lemma_slot_nulls(ms: Seq<ArrayModel>, out: ArrayModel)
    requires
        all_valid(ms),
        one_type(ms),
        ms.len() > 0,
        concatenates(ms, out),
        ms[0].data_type.shape !is Null,
        ms[0].data_type.shape !is Dictionary,
        ms[0].data_type.shape !is Runs,
        ms[0].data_type.shape !is Union,
    ensures
        no_new_nulls(ms, out),
{
    if holds_null(out) {
        lemma_joined_nulls(ms);
        let i = choose|i: int| 0 <= i < ms.len() && (#[trigger] ms[i]).nulls is Some;
        assert(ms[i].data_type == ms[0].data_type);
        assert(holds_null(ms[i]));
    }
}

/// One array alone.
pub proof fn lemma_joined_one(m: ArrayModel)
    requires
        valid(m),
    ensures
        joined(seq![m]) == rows(m),
        total(seq![m]) == m.len,
        joined_validity(seq![m]) == validity(m),
        joined_nulls(seq![m]) == m.nulls,
{
    let ms = seq![m];
    assert(ms.drop_last() =~= seq![]);
    assert(ms.last() == m);
    assert(joined(ms.drop_last()) =~= seq![]);
    assert(joined(ms) =~= rows(m));
    assert(joined_validity(ms.drop_last()) =~= seq![]);
    assert(joined_validity(ms) =~= validity(m));
    assert(total(ms.drop_last()) == 0);
    assert(total(ms) == m.len);
}

/// The validity bits tell which rows are null.
pub proof fn lemma_null_at(m: ArrayModel, i: int)
    requires
        valid(m),
        0 <= i < m.len,
    ensures
        null_at(m, i) == !validity(m)[i],
        null_at(m, i) ==> row(m, i) == Value::Null,
{
}

/// The validity of an array whose null bits are known.
pub proof fn lemma_validity(m: ArrayModel, bits: Seq<bool>)
    requires
        m.nulls == some_nulls(bits),
        bits.len() == m.len,
    ensures
        validity(m) == bits,
{
    if !bits.contains(false) {
        assert forall|i: int| 0 <= i < bits.len() implies bits[i] by {
            if !bits[i] {
                assert(bits.contains(false));
            }
        }
    }
    assert(validity(m) =~= bits);
}

/// Where the rows of an array are among the joined rows.
pub proof fn lemma_joined_at(ms: Seq<ArrayModel>, i: int, k: int)
    requires
        all_valid(ms),
        0 <= i < ms.len(),
        0 <= k < ms[i].len,
    ensures
        total(ms.take(i)) + k < total(ms),
        joined(ms)[total(ms.take(i)) + k] == row(ms[i], k),
    decreases ms.len(),
{
    let front = ms.drop_last();
    assert forall|q: int| 0 <= q < front.len() implies valid(#[trigger] front[q]) by {
        assert(front[q] == ms[q]);
    }
    lemma_joined_len(front);
    if i < front.len() {
        assert(front[i] == ms[i]);
        assert(front.take(i) =~= ms.take(i));
        lemma_joined_at(front, i, k);
    } else {
        assert(ms.take(i) =~= front);
        assert(joined(ms)[joined(front).len() + k] == rows(ms.last())[k]);
    }
}

// Structs

/// Rows made of a validity bit and one value of each column.
pub open spec fn struct_rows(bits: Seq<bool>, columns: Seq<Seq<Value>>) -> Seq<Value> {
    Seq::new(
        bits.len(),
        |i: int|
            if bits[i] {
                Value::Record(Seq::new(columns.len(), |j: int| columns[j][i]))
            } else {
                Value::Null
            },
    )
}

/// The rows of each child.
pub open spec fn child_rows(m: ArrayModel) -> Seq<Seq<Value>> {
    Seq::new(m.children.len(), |j: int| rows(m.children[j]))
}

/// The joined rows of each of `n` children.
pub open spec fn joined_columns(ms: Seq<ArrayModel>, n: nat) -> Seq<Seq<Value>> {
    Seq::new(n, |j: int| joined(child_models(ms, j)))
}

/// The rows of a struct array are made of its columns.
pub proof fn lemma_struct_rows(m: ArrayModel)
    requires
        valid(m),
        m.data_type.shape is Struct,
    ensures
        rows(m) == struct_rows(validity(m), child_rows(m)),
{
    let made = struct_rows(validity(m), child_rows(m));
    assert forall|i: int| 0 <= i < m.len implies rows(m)[i] == #[trigger] made[i] by {
        lemma_null_at(m, i);
        if !null_at(m, i) {
            assert(row(m, i)->Record_0 =~= made[i]->Record_0);
        }
    }
    assert(rows(m) =~= made);
}

/// The rows of struct arrays one after the other are made of their columns one after the other.
pub proof fn lemma_struct_join(ms: Seq<ArrayModel>, n: nat)
    requires
        all_valid(ms),
        forall|i: int|
            0 <= i < ms.len() ==> (#[trigger] ms[i]).data_type.shape is Struct
                && ms[i].children.len() == n,
    ensures
        joined(ms) == struct_rows(joined_validity(ms), joined_columns(ms, n)),
        forall|j: int| 0 <= j < n ==> total(#[trigger] child_models(ms, j)) == total(ms),
        forall|j: int| 0 <= j < n ==> all_valid(#[trigger] child_models(ms, j)),
    decreases ms.len(),
{
    assert forall|j: int| 0 <= j < n implies all_valid(#[trigger] child_models(ms, j)) by {
        assert forall|i: int| 0 <= i < ms.len() implies valid(
            #[trigger] child_models(ms, j)[i],
        ) by {
            assert(valid(ms[i]));
            assert(valid(ms[i].children[j]));
        }
    }
    if ms.len() == 0 {
        assert(joined(ms) =~= struct_rows(joined_validity(ms), joined_columns(ms, n)));
    } else {
        let front = ms.drop_last();
        let last = ms.last();
        assert(ms[ms.len() - 1] == last);
        assert(valid(last));
        assert forall|i: int| 0 <= i < front.len() implies valid(#[trigger] front[i])
            && front[i].data_type.shape is Struct && front[i].children.len() == n by {
            assert(front[i] == ms[i]);
        }
        lemma_struct_join(front, n);
        lemma_struct_rows(last);
        lemma_joined_len(front);
        assert forall|j: int| 0 <= j < n implies {
            &&& joined(#[trigger] child_models(ms, j)) == joined(child_models(front, j)) + rows(
                last.children[j],
            )
            &&& total(child_models(ms, j)) == total(ms)
            &&& joined(child_models(front, j)).len() == total(front)
        } by {
            assert(child_models(ms, j).drop_last() =~= child_models(front, j));
            assert(child_models(ms, j).last() == last.children[j]);
            lemma_joined_len(child_models(front, j));
            assert(last.children[j].len == last.len);
        }
        let before = struct_rows(joined_validity(front), joined_columns(front, n));
        let after = struct_rows(validity(last), child_rows(last));
        let made = struct_rows(joined_validity(ms), joined_columns(ms, n));
        assert forall|i: int| 0 <= i < made.len() implies #[trigger] made[i] == (before
            + after)[i] by {
            assert forall|j: int| 0 <= j < n implies #[trigger] joined_columns(ms, n)[j] == joined(
                child_models(front, j),
            ) + rows(last.children[j]) by {
                assert(joined_columns(ms, n)[j] == joined(child_models(ms, j)));
            }
            if i < total(front) {
                assert(Seq::new(n, |j: int| joined_columns(ms, n)[j][i]) =~= Seq::new(
                    n,
                    |j: int| joined_columns(front, n)[j][i],
                ));
            } else {
                let k = i - total(front);
                assert(Seq::new(n, |j: int| joined_columns(ms, n)[j][i]) =~= Seq::new(
                    n,
                    |j: int| child_rows(last)[j][k],
                ));
            }
        }
        assert(made =~= before + after);
    }
}

// Lists

/// The lengths of the lists of a list or map array.
pub open spec fn gaps(m: ArrayModel) -> Seq<int> {
    Seq::new(m.len, |i: int| m.offsets[i + 1] - m.offsets[i])
}

/// The lengths of the lists of arrays, one array after the other.
pub open spec fn joined_gaps(ms: Seq<ArrayModel>) -> Seq<int>
    decreases ms.len(),
{
    if ms.len() == 0 {
        seq![]
    } else {
        joined_gaps(ms.drop_last()) + gaps(ms.last())
    }
}

/// Rows made of a validity bit and the next `lengths[i]` items.
pub open spec fn list_rows(bits: Seq<bool>, lengths: Seq<int>, items: Seq<Value>) -> Seq<Value> {
    Seq::new(
        lengths.len(),
        |i: int|
            if bits[i] {
                Value::List(items.subrange(sum(lengths.take(i)), sum(lengths.take(i + 1))))
            } else {
                Value::Null
            },
    )
}

/// The sum of lengths one after the other.
pub proof fn lemma_sum_add(a: Seq<int>, b: Seq<int>)
    ensures
        sum(a + b) == sum(a) + sum(b),
    decreases b.len(),
{
    if b.len() == 0 {
        assert(a + b =~= a);
    } else {
        assert((a + b).drop_last() =~= a + b.drop_last());
        lemma_sum_add(a, b.drop_last());
    }
}

/// The sum of the first lengths, none of them negative, does not exceed the sum of more of them.
pub proof fn lemma_sum_prefix(lengths: Seq<int>, i: int, j: int)
    requires
        0 <= i <= j <= lengths.len(),
        forall|k: int| 0 <= k < lengths.len() ==> 0 <= #[trigger] lengths[k],
    ensures
        0 <= sum(lengths.take(i)) <= sum(lengths.take(j)) <= sum(lengths),
    decreases lengths.len() - i, lengths.len() - j, i,
{
    if i < j {
        lemma_take_step(lengths, i);
        lemma_sum_prefix(lengths, i + 1, j);
        if i > 0 {
            lemma_take_step(lengths, i - 1);
            assert(sum(lengths.take(i)) >= 0) by {
                lemma_sum_nonnegative(lengths.take(i));
            }
        }
    } else if j < lengths.len() {
        lemma_take_step(lengths, j);
        lemma_sum_nonnegative(lengths.take(i));
        lemma_sum_prefix(lengths, j, j + 1);
    } else {
        assert(lengths.take(j) =~= lengths);
        lemma_sum_nonnegative(lengths);
    }
}

/// A sum of lengths, none of them negative, is not negative.
pub proof fn lemma_sum_nonnegative(lengths: Seq<int>)
    requires
        forall|k: int| 0 <= k < lengths.len() ==> 0 <= #[trigger] lengths[k],
    ensures
        0 <= sum(lengths),
    decreases lengths.len(),
{
    if lengths.len() > 0 {
        lemma_sum_nonnegative(lengths.drop_last());
    }
}

/// The lengths before list `i` add up to the offset of the list, counted from the first offset.
pub proof fn lemma_gaps_sum(m: ArrayModel, i: int)
    requires
        0 <= i <= m.len,
        m.offsets.len() == m.len + 1,
    ensures
        sum(gaps(m).take(i)) == m.offsets[i] - m.offsets[0],
    decreases i,
{
    if i > 0 {
        lemma_take_step(gaps(m), i - 1);
        lemma_gaps_sum(m, i - 1);
    }
}

/// Whether a model is that of a list or map array.
pub open spec fn listlike(m: ArrayModel) -> bool {
    m.data_type.shape is List || m.data_type.shape is MapEntries
}

/// The rows of a list array are made of the items that its offsets span.
pub proof fn lemma_list_rows(m: ArrayModel)
    requires
        valid(m),
        listlike(m),
    ensures
        valid(used(m)),
        used(m).len == extent(m),
        sum(gaps(m)) == extent(m),
        forall|i: int| 0 <= i < m.len ==> 0 <= #[trigger] gaps(m)[i],
        rows(m) == list_rows(validity(m), gaps(m), rows(used(m))),
{
    let first = m.offsets[0];
    assert(valid(m.children[0]));
    assert(m.offsets.last() == m.offsets[m.len as int]);
    assert(m.offsets[0] <= m.offsets[m.len as int]);
    slice_keeps_rows(m.children[0], first, extent(m));
    lemma_sliced_valid(m.children[0], first, extent(m));
    lemma_gaps_sum(m, m.len as int);
    assert(gaps(m).take(m.len as int) =~= gaps(m));
    assert forall|i: int| 0 <= i < m.len implies 0 <= #[trigger] gaps(m)[i] by {
        assert(m.offsets[i] <= m.offsets[i + 1]);
    }
    let made = list_rows(validity(m), gaps(m), rows(used(m)));
    assert forall|i: int| 0 <= i < m.len implies rows(m)[i] == #[trigger] made[i] by {
        lemma_null_at(m, i);
        lemma_gaps_sum(m, i);
        lemma_gaps_sum(m, i + 1);
        assert(m.offsets[i] <= m.offsets[i + 1]);
        assert(m.offsets[0] <= m.offsets[i]);
        assert(m.offsets[i + 1] <= m.offsets[m.len as int]);
        if !null_at(m, i) {
            assert(items(m, m.offsets[i], m.offsets[i + 1])->List_0 =~= made[i]->List_0);
        }
    }
    assert(rows(m) =~= made);
}

/// Lists one after the other.
pub proof fn lemma_list_rows_add(
    bits: Seq<bool>,
    lengths: Seq<int>,
    values: Seq<Value>,
    more_bits: Seq<bool>,
    more_lengths: Seq<int>,
    more_values: Seq<Value>,
)
    requires
        bits.len() == lengths.len(),
        more_bits.len() == more_lengths.len(),
        sum(lengths) == values.len(),
        sum(more_lengths) == more_values.len(),
        forall|k: int| 0 <= k < lengths.len() ==> 0 <= #[trigger] lengths[k],
        forall|k: int| 0 <= k < more_lengths.len() ==> 0 <= #[trigger] more_lengths[k],
    ensures
        list_rows(bits + more_bits, lengths + more_lengths, values + more_values) == list_rows(
            bits,
            lengths,
            values,
        ) + list_rows(more_bits, more_lengths, more_values),
{
    let all_lengths = lengths + more_lengths;
    let all_values = values + more_values;
    let n = lengths.len();
    let left = list_rows(bits + more_bits, all_lengths, all_values);
    let right = list_rows(bits, lengths, values) + list_rows(more_bits, more_lengths, more_values);
    assert forall|i: int| 0 <= i < left.len() implies #[trigger] left[i] == right[i] by {
        if i < n {
            assert(all_lengths.take(i) =~= lengths.take(i));
            assert(all_lengths.take(i + 1) =~= lengths.take(i + 1));
            lemma_sum_prefix(lengths, i, i + 1);
            assert(all_values.subrange(sum(lengths.take(i)), sum(lengths.take(i + 1)))
                =~= values.subrange(sum(lengths.take(i)), sum(lengths.take(i + 1))));
        } else {
            let k = i - n;
            assert(all_lengths.take(i) =~= lengths + more_lengths.take(k));
            assert(all_lengths.take(i + 1) =~= lengths + more_lengths.take(k + 1));
            lemma_sum_add(lengths, more_lengths.take(k));
            lemma_sum_add(lengths, more_lengths.take(k + 1));
            lemma_sum_prefix(more_lengths, k, k + 1);
            let a = sum(more_lengths.take(k));
            let b = sum(more_lengths.take(k + 1));
            assert(all_values.subrange(values.len() + a, values.len() + b)
                =~= more_values.subrange(a, b));
        }
    }
    assert(left =~= right);
}

/// The rows of list arrays one after the other are made of their items one after the other.
pub proof fn lemma_list_join(ms: Seq<ArrayModel>)
    requires
        all_valid(ms),
        forall|i: int| 0 <= i < ms.len() ==> listlike(#[trigger] ms[i]),
    ensures
        joined(ms) == list_rows(joined_validity(ms), joined_gaps(ms), joined(used_models(ms))),
        sum(joined_gaps(ms)) == total(used_models(ms)),
        joined_gaps(ms).len() == total(ms),
        forall|k: int| 0 <= k < total(ms) ==> 0 <= #[trigger] joined_gaps(ms)[k],
        all_valid(used_models(ms)),
    decreases ms.len(),
{
    assert forall|i: int| 0 <= i < ms.len() implies valid(#[trigger] used_models(ms)[i]) by {
        assert(valid(ms[i]) && listlike(ms[i]));
        lemma_list_rows(ms[i]);
    }
    if ms.len() == 0 {
        assert(joined(ms) =~= list_rows(
            joined_validity(ms),
            joined_gaps(ms),
            joined(used_models(ms)),
        ));
    } else {
        let front = ms.drop_last();
        let last = ms.last();
        assert(ms[ms.len() - 1] == last);
        assert(valid(last) && listlike(last));
        assert forall|i: int| 0 <= i < front.len() implies valid(#[trigger] front[i]) && listlike(
            front[i],
        ) by {
            assert(front[i] == ms[i]);
        }
        lemma_list_join(front);
        lemma_list_rows(last);
        lemma_joined_len(front);
        assert(used_models(ms).drop_last() =~= used_models(front));
        assert(used_models(ms).last() == used(last));
        lemma_joined_len(used_models(front));
        lemma_sum_add(joined_gaps(front), gaps(last));
        lemma_list_rows_add(
            joined_validity(front),
            joined_gaps(front),
            joined(used_models(front)),
            validity(last),
            gaps(last),
            rows(used(last)),
        );
    }
}

// Dictionaries

/// Rows made of a validity bit and the value that a key points to.
pub open spec fn dictionary_rows(
    bits: Seq<bool>,
    keys: Seq<int>,
    values: Seq<Value>,
) -> Seq<Value> {
    Seq::new(
        keys.len(),
        |i: int|
            if bits[i] {
                values[keys[i]]
            } else {
                Value::Null
            },
    )
}

/// Whether two arrays have the same rows, and store the same if their type holds no other.
pub open spec fn alike(a: ArrayModel, b: ArrayModel) -> bool {
    &&& a.data_type == b.data_type
    &&& rows(a) == rows(b)
    &&& a.data_type.fields.len() == 0 ==> a == b
}

/// Whether all arrays are alike.
pub open spec fn all_alike(ms: Seq<ArrayModel>) -> bool {
    forall|i: int| 0 <= i < ms.len() ==> alike(#[trigger] ms[i], ms[0])
}

/// Whether the keys of a dictionary array, as far as its slots are not null, are those of the arrays,
/// one array after the other: behind the values of the arrays before, or as they are where `kept`.
pub open spec fn keys_follow(ms: Seq<ArrayModel>, out: ArrayModel, kept: bool) -> bool {
    forall|p: int, q: int|
        0 <= p < ms.len() && 0 <= q < ms[p].len && !null_at(ms[p], q) ==> out.ints[total(ms.take(p))
            + q] == #[trigger] ms[p].ints[q] + if kept {
            0
        } else {
            total(child_models(ms, 0).take(p)) as int
        }
}

/// Whether a dictionary array has the values of all arrays, one array after the other.
pub open spec fn behind(ms: Seq<ArrayModel>, out: ArrayModel) -> bool {
    &&& rows(out.children[0]) == joined(child_models(ms, 0))
    &&& keys_follow(ms, out, false)
}

/// Whether the values of all dictionary arrays are alike, and an array has those of one.
pub open spec fn kept(ms: Seq<ArrayModel>, out: ArrayModel) -> bool {
    &&& all_alike(child_models(ms, 0))
    &&& rows(out.children[0]) == rows(child_models(ms, 0)[0])
    &&& keys_follow(ms, out, true)
}

/// Whether a dictionary array has the values of all arrays, one array after the other, or, where the
/// values of all arrays are alike, those of one.
pub open spec fn stacked(ms: Seq<ArrayModel>, out: ArrayModel) -> bool {
    behind(ms, out) || kept(ms, out)
}

/// The rows of a dictionary array are what its keys point to.
pub proof fn lemma_dictionary_rows(m: ArrayModel)
    requires
        valid(m),
        m.data_type.shape is Dictionary,
    ensures
        rows(m) == dictionary_rows(validity(m), m.ints, rows(m.children[0])),
{
    let made = dictionary_rows(validity(m), m.ints, rows(m.children[0]));
    assert forall|i: int| 0 <= i < m.len implies rows(m)[i] == #[trigger] made[i] by {
        lemma_null_at(m, i);
        if !null_at(m, i) {
            assert(0 <= m.ints[i] < m.children[0].len);
            assert(row(m, i) == child_row(m, 0, m.ints[i]));
            assert(child_row(m, 0, m.ints[i]) == row(m.children[0], m.ints[i]));
        }
    }
    assert(rows(m) =~= made);
}

/// Keys one after the other.
pub proof fn lemma_dictionary_rows_add(
    bits: Seq<bool>,
    keys: Seq<int>,
    more_bits: Seq<bool>,
    more_keys: Seq<int>,
    values: Seq<Value>,
)
    requires
        bits.len() == keys.len(),
        more_bits.len() == more_keys.len(),
    ensures
        dictionary_rows(bits + more_bits, keys + more_keys, values) == dictionary_rows(
            bits,
            keys,
            values,
        ) + dictionary_rows(more_bits, more_keys, values),
{
    assert(dictionary_rows(bits + more_bits, keys + more_keys, values) =~= dictionary_rows(
        bits,
        keys,
        values,
    ) + dictionary_rows(more_bits, more_keys, values));
}

// Runs

/// Rows made of runs: where each ends, and the value of each.
pub open spec fn run_rows(ends: Seq<int>, values: Seq<Value>, offset: int, len: int) -> Seq<
    Value,
> {
    Seq::new(len as nat, |i: int| values[run_of(ends, offset + i)])
}

/// The run of a row is the first one that ends behind it.
pub proof fn lemma_run_of(ends: Seq<int>, pos: int)
    requires
        rising(ends),
    ensures
        0 <= run_of(ends, pos) <= ends.len(),
        run_of(ends, pos) < ends.len() ==> pos < ends[run_of(ends, pos)],
        run_of(ends, pos) > 0 ==> ends[run_of(ends, pos) - 1] <= pos,
    decreases ends.len(),
{
    if ends.len() > 0 && pos >= ends[0] {
        let rest = ends.drop_first();
        assert(rising(rest)) by {
            assert forall|i: int| 0 <= i < rest.len() implies 0 <= #[trigger] rest[i] by {
                assert(rest[i] == ends[i + 1]);
            }
            assert forall|i: int, j: int| 0 <= i < j < rest.len() implies #[trigger] rest[i]
                < #[trigger] rest[j] by {
                assert(ends[i + 1] < ends[j + 1]);
            }
        }
        lemma_run_of(rest, pos);
    }
}

/// The run that ends behind a row, and whose forerunner does not, is the run of the row.
pub proof fn lemma_run_is(ends: Seq<int>, pos: int, k: int)
    requires
        rising(ends),
        0 <= k < ends.len(),
        pos < ends[k],
        k > 0 ==> ends[k - 1] <= pos,
    ensures
        run_of(ends, pos) == k,
{
    lemma_run_of(ends, pos);
    let found = run_of(ends, pos);
    if found < k {
        assert(ends[found] <= ends[k - 1]);
    } else if found > k {
        assert(ends[k] <= ends[found - 1]);
    }
}

/// Later rows lie in the same run or in later ones.
pub proof fn lemma_run_of_rises(ends: Seq<int>, pos: int, later: int)
    requires
        rising(ends),
        pos <= later,
    ensures
        run_of(ends, pos) <= run_of(ends, later),
{
    lemma_run_of(ends, pos);
    lemma_run_of(ends, later);
    let a = run_of(ends, pos);
    let b = run_of(ends, later);
    if b < a {
        assert(ends[b] <= ends[a - 1]);
    }
}

/// Where the runs of an array end when `base` rows lie before it.
pub open spec fn shifted_ends(m: ArrayModel, base: int) -> Seq<int> {
    Seq::new(
        run_count(m) as nat,
        |r: int|
            {
                let end = m.ints[first_run(m) + r];
                if end < m.offset + m.len {
                    end - m.offset + base
                } else {
                    base + m.len
                }
            },
    )
}

/// Where the runs of the arrays end, one array after the other. Runs that meet are not joined.
pub open spec fn joined_ends(ms: Seq<ArrayModel>) -> Seq<int>
    decreases ms.len(),
{
    if ms.len() == 0 {
        seq![]
    } else if ms.last().len == 0 {
        joined_ends(ms.drop_last())
    } else {
        joined_ends(ms.drop_last()) + shifted_ends(ms.last(), total(ms.drop_last()) as int)
    }
}

/// The runs of a run-end encoded array lie in its stored runs.
pub proof fn lemma_run_bounds(m: ArrayModel)
    requires
        valid(m),
        m.data_type.shape is Runs,
        m.len > 0,
    ensures
        0 <= first_run(m),
        0 < run_count(m),
        first_run(m) + run_count(m) <= m.ints.len(),
        valid(run_values(m)),
        run_values(m).len == run_count(m),
{
    let last_pos = m.offset + m.len - 1;
    lemma_run_of(m.ints, m.offset as int);
    lemma_run_of(m.ints, last_pos);
    lemma_run_of_rises(m.ints, m.offset as int, last_pos);
    let b = run_of(m.ints, last_pos);
    if b == m.ints.len() {
        assert(m.ints[b - 1] <= last_pos);
        assert(m.ints.last() == m.ints[b - 1]);
    }
    assert(valid(m.children[0]));
    lemma_sliced_valid(m.children[0], first_run(m), run_count(m));
}

/// Runs of an array behind runs that end with row `base`.
pub proof fn lemma_run_step(ends: Seq<int>, values: Seq<Value>, base: int, m: ArrayModel)
    requires
        valid(m),
        m.data_type.shape is Runs,
        m.len > 0,
        base >= 0,
        ends.len() == values.len(),
        rising(ends),
        ends.len() == 0 ==> base == 0,
        ends.len() > 0 ==> ends.last() == base && ends[0] > 0,
    ensures
        rising(ends + shifted_ends(m, base)),
        shifted_ends(m, base).len() == run_count(m),
        run_count(m) > 0,
        (ends + shifted_ends(m, base)).last() == base + m.len,
        (ends + shifted_ends(m, base))[0] > 0,
        run_rows(
            ends + shifted_ends(m, base),
            values + rows(run_values(m)),
            0,
            base + m.len,
        ) == run_rows(ends, values, 0, base) + rows(m),
{
    let first = first_run(m);
    let count = run_count(m);
    let more = shifted_ends(m, base);
    let all = ends + more;
    let all_values = values + rows(run_values(m));
    let off = m.offset;
    let last = run_of(m.ints, off + m.len - 1);
    lemma_run_bounds(m);
    lemma_run_of(m.ints, off as int);
    lemma_run_of(m.ints, off + m.len - 1);
    assert(last == first + count - 1);
    assert(m.ints[last] >= off + m.len);
    assert(more.last() == base + m.len);
    assert forall|k: int| first <= k < last implies #[trigger] m.ints[k] < off + m.len by {
        assert(m.ints[k] <= m.ints[last - 1]);
    }
    assert forall|r: int| 0 <= r < count implies #[trigger] more[r] > base by {
        if r > 0 {
            assert(m.ints[first] < m.ints[first + r]);
        }
    }
    assert(rising(all)) by {
        assert forall|i: int, j: int| 0 <= i < j < all.len() implies #[trigger] all[i]
            < #[trigger] all[j] by {
            if j < ends.len() {
                assert(ends[i] < ends[j]);
            } else if i < ends.len() {
                assert(ends[i] <= ends.last()) by {
                    if i < ends.len() - 1 {
                        assert(ends[i] < ends[ends.len() - 1]);
                    }
                }
                assert(more[j - ends.len()] > base);
            } else {
                let r = i - ends.len();
                let q = j - ends.len();
                assert(m.ints[first + r] < m.ints[first + q]);
                assert(m.ints[first + r] < off + m.len);
            }
        }
        assert forall|i: int| 0 <= i < all.len() implies 0 <= #[trigger] all[i] by {
            if i >= ends.len() {
                assert(more[i - ends.len()] > base);
            }
        }
    }
    if ends.len() == 0 {
        assert(all[0] == more[0]);
    }
    let left = run_rows(all, all_values, 0, base + m.len);
    let right = run_rows(ends, values, 0, base) + rows(m);
    assert forall|i: int| 0 <= i < left.len() implies #[trigger] left[i] == right[i] by {
        if i < base {
            let k = run_of(ends, i);
            lemma_run_of(ends, i);
            if k == ends.len() {
                assert(ends[k - 1] <= i);
            }
            lemma_run_is(all, i, k);
        } else {
            let p = off + (i - base);
            let k = run_of(m.ints, p);
            lemma_run_of(m.ints, p);
            lemma_run_of_rises(m.ints, off as int, p);
            lemma_run_of_rises(m.ints, p, off + m.len - 1);
            let at = ends.len() + (k - first);
            assert(all[at] == more[k - first]);
            if at > ends.len() {
                assert(all[at - 1] == more[k - 1 - first]);
                assert(m.ints[first + (k - 1 - first)] < off + m.len);
            }
            lemma_run_is(all, i, at);
            assert(valid(m.children[0]));
            lemma_sliced_row(m.children[0], first, count, k - first);
            assert(row(m, i - base) == child_row(m, 0, k));
            assert(child_row(m, 0, k) == row(m.children[0], k));
        }
    }
    assert(left =~= right);
}

} // verus!

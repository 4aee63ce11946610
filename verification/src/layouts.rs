//! How results are laid out: offsets, lists, runs, columns and the values of dictionaries, in terms of the
//! arrays alone.
use vstd::prelude::*;

use crate::batches::{column_models, column_traced, columns_traced, some_traced};
use crate::concat::{part_traced, passes_on, result_of, traced};
use crate::dictionary::{
    all_true, chosen, held_with, known_outcome, known_values, may_tell, merged_values,
    referred_flags, referred_values, refers, refers_to, sharing_told, wants_merge,
};
use crate::error::ConcatError;
use crate::joins::{
    alike, all_valid, gaps, joined_ends, joined_gaps, lemma_joined_at, lemma_joined_len,
    lemma_run_bounds, lemma_run_of, lemma_run_of_rises, one_type, shifted_ends,
};
use crate::laws::never_fails;
use crate::ledger::columns_at;
use crate::limits::{child_models, first_run, run_count, used_models};
use crate::model::{
    child_row, concatenates, index_max, null_at, row, rows, run_of, total, valid, ArrayModel, Value,
};
use crate::outside::{contents, models, AnyArray};
use crate::parts::lemma_used_type;
use crate::pieces::lemma_locate;
use crate::promises::{
    column_of, columns_typed, dictionaries_fail_as_their_values_do, gives_all, holds_all, items_of,
    lemma_carefree, lemma_column, lemma_holds_all, lemma_slots, lemma_spanned, lemma_values,
    lists_fail_as_their_items_do, slots, some_slot_holds, spanned, success_gives_all,
};
use crate::records::{batch_contents, Batch, BatchModel, SchemaModel};

verus! {

/// The offsets of concatenated strings start at zero and span just the bytes of the strings.
pub proof fn strings_start_at_zero(ms: Seq<ArrayModel>, result: Result<AnyArray, ConcatError>)
    requires
        ms.len() >= 2,
        one_type(ms),
        ms[0].data_type.shape is Bytes,
        result_of(ms, result),
        result is Ok,
    ensures
        contents(result->Ok_0).offsets[0] == 0,
        contents(result->Ok_0).offsets.last() == spanned(ms),
{
    lemma_spanned(ms);
}

/// The bits of concatenated booleans start with the first slot.
pub proof fn booleans_start_at_zero(ms: Seq<ArrayModel>, result: Result<AnyArray, ConcatError>)
    requires
        ms.len() >= 2,
        one_type(ms),
        ms[0].data_type.shape is Boolean,
        result_of(ms, result),
        result is Ok,
    ensures
        contents(result->Ok_0).offset == 0,
{
}

/// The length of a list stands where the list does.
proof fn lemma_gaps_at(ms: Seq<ArrayModel>, i: int, k: int)
    requires
        0 <= i < ms.len(),
        0 <= k < ms[i].len,
    ensures
        joined_gaps(ms)[total(ms.take(i)) + k] == ms[i].offsets[k + 1] - ms[i].offsets[k],
        joined_gaps(ms).len() == total(ms),
        total(ms.take(i)) + k < total(ms),
    decreases ms.len(),
{
    let front = ms.drop_last();
    lemma_gaps_len(front);
    lemma_gaps_len(ms);
    if i < front.len() {
        assert(front.take(i) =~= ms.take(i));
        assert(front[i] == ms[i]);
        lemma_gaps_at(front, i, k);
    } else {
        assert(ms.take(i) =~= front);
    }
}

/// There is a length for each slot.
proof fn lemma_gaps_len(ms: Seq<ArrayModel>)
    ensures
        joined_gaps(ms).len() == total(ms),
    decreases ms.len(),
{
    if ms.len() > 0 {
        lemma_gaps_len(ms.drop_last());
    }
}

/// Concatenated lists have offsets that start at zero, the length of each list, null or not, and just the
/// items that the offsets of the arrays span.
pub proof fn lists_keep_their_lengths_and_items(
    ms: Seq<ArrayModel>,
    result: Result<AnyArray, ConcatError>,
)
    requires
        all_valid(ms),
        ms.len() >= 2,
        one_type(ms),
        ms[0].data_type.shape is List,
        result_of(ms, result),
        result is Ok,
    ensures
        contents(result->Ok_0).offsets[0] == 0,
        contents(result->Ok_0).offsets.last() == contents(result->Ok_0).children[0].len,
        holds_all(items_of(ms), contents(result->Ok_0).children[0]),
        forall|i: int, k: int|
            0 <= i < ms.len() && 0 <= k < ms[i].len ==> {
                let at = slots(ms.take(i)) + k;
                contents(result->Ok_0).offsets[at + 1] - contents(result->Ok_0).offsets[at]
                    == ms[i].offsets[k + 1] - #[trigger] ms[i].offsets[k]
            },
{
    let out = contents(result->Ok_0);
    assert(valid(ms[0]));
    lemma_used_type(ms);
    assert(items_of(ms) =~= used_models(ms));
    lemma_holds_all(items_of(ms), out.children[0]);
    assert forall|i: int, k: int| 0 <= i < ms.len() && 0 <= k < ms[i].len implies {
        let at = slots(ms.take(i)) + k;
        out.offsets[at + 1] - out.offsets[at] == ms[i].offsets[k + 1] - #[trigger] ms[i].offsets[k]
    } by {
        lemma_slots(ms.take(i));
        lemma_gaps_at(ms, i, k);
        assert(gaps(out)[total(ms.take(i)) + k] == joined_gaps(ms)[total(ms.take(i)) + k]);
    }
}

/// The columns of a concatenated struct are the concatenated columns.
pub proof fn structs_hold_their_columns(
    ms: Seq<ArrayModel>,
    result: Result<AnyArray, ConcatError>,
    j: int,
)
    requires
        all_valid(ms),
        ms.len() >= 2,
        one_type(ms),
        ms[0].data_type.shape is Struct,
        columns_typed(ms),
        0 <= j < ms[0].data_type.fields.len(),
        result_of(ms, result),
        result is Ok,
    ensures
        contents(result->Ok_0).children.len() == ms[0].data_type.fields.len(),
        holds_all(column_of(ms, j), contents(result->Ok_0).children[j]),
{
    let t = ms[0].data_type;
    let field = t.fields[j];
    lemma_column(ms, j);
    assert forall|i: int| 0 <= i < ms.len() implies valid(#[trigger] column_of(ms, j)[i]) by {
        assert(valid(ms[i]));
        assert(ms[i].data_type == t);
        assert(valid(ms[i].children[j]));
    }
    lemma_holds_all(column_of(ms, j), contents(result->Ok_0).children[j]);
}

// Runs

/// Whether the rows of an array that has any touch the `r`-th of its stored runs.
pub open spec fn touches(m: ArrayModel, r: int) -> bool {
    &&& m.len > 0
    &&& 0 <= r < m.ints.len()
    &&& m.offset < m.ints[r]
    &&& r == 0 || m.ints[r - 1] < m.offset + m.len
}

/// Where the `r`-th stored run of an array ends, counted from its first row and no further than its last.
pub open spec fn end_within(m: ArrayModel, r: int) -> int {
    if m.ints[r] < m.offset + m.len {
        m.ints[r] - m.offset
    } else {
        m.len as int
    }
}

/// Whether a run of one of the arrays ends at this row of all.
pub open spec fn a_run_ends(ms: Seq<ArrayModel>, end: int) -> bool {
    exists|i: int, r: int|
        0 <= i < ms.len() && #[trigger] touches(ms[i], r) && end == slots(ms.take(i)) + end_within(
            ms[i],
            r,
        )
}

/// The stored runs that an array touches are those from the run of its first row to that of its last.
proof fn lemma_touches(m: ArrayModel, r: int)
    requires
        valid(m),
        m.data_type.shape is Runs,
        m.len > 0,
        0 <= r < m.ints.len(),
    ensures
        touches(m, r) <==> first_run(m) <= r < first_run(m) + run_count(m),
{
    let last_pos = m.offset + m.len - 1;
    lemma_run_of(m.ints, m.offset as int);
    lemma_run_of(m.ints, last_pos);
    lemma_run_of_rises(m.ints, m.offset as int, last_pos);
    let a = run_of(m.ints, m.offset as int);
    let b = run_of(m.ints, last_pos);
    if r >= a && a < m.ints.len() && r > a {
        assert(m.ints[a] < m.ints[r]);
    }
    if r < a && r < a - 1 {
        assert(m.ints[r] < m.ints[a - 1]);
    }
    if r > 0 && r - 1 < b - 1 {
        assert(m.ints[r - 1] < m.ints[b - 1]);
    }
    if r > 0 && r - 1 > b {
        assert(m.ints[b] < m.ints[r - 1]);
    }
}

/// Where the joined run ends have one, a run of an array ends.
#[verifier::spinoff_prover]
proof fn lemma_end_found(ms: Seq<ArrayModel>, e: int) -> (r: (int, int))
    requires
        all_valid(ms),
        forall|i: int| 0 <= i < ms.len() ==> (#[trigger] ms[i]).data_type.shape is Runs,
        0 <= e < joined_ends(ms).len(),
    ensures
        0 <= r.0 < ms.len(),
        touches(ms[r.0], r.1),
        joined_ends(ms)[e] == total(ms.take(r.0)) + end_within(ms[r.0], r.1),
    decreases ms.len(),
{
    let front = ms.drop_last();
    let last = ms[ms.len() - 1];
    let n = front.len() as int;
    assert forall|i: int| 0 <= i < front.len() implies valid(#[trigger] front[i])
        && front[i].data_type.shape is Runs by {
        assert(front[i] == ms[i]);
    }
    if e < joined_ends(front).len() {
        let (i, k) = lemma_end_found(front, e);
        assert(front.take(i) =~= ms.take(i));
        assert(front[i] == ms[i]);
        (i, k)
    } else {
        let k = first_run(last) + (e - joined_ends(front).len());
        let ends = shifted_ends(last, total(front) as int);
        assert(valid(last));
        assert(last.data_type.shape is Runs);
        assert(last.len > 0);
        lemma_run_bounds(last);
        assert(joined_ends(ms) == joined_ends(front) + ends);
        assert(ends.len() == run_count(last));
        assert(joined_ends(ms)[e] == ends[e - joined_ends(front).len()]);
        lemma_touches(last, k);
        assert(ms.take(n) =~= front);
        (n, k)
    }
}

/// Where a run of an array ends, the joined run ends have one.
#[verifier::spinoff_prover]
proof fn lemma_end_kept(ms: Seq<ArrayModel>, i: int, k: int) -> (e: int)
    requires
        all_valid(ms),
        forall|i: int| 0 <= i < ms.len() ==> (#[trigger] ms[i]).data_type.shape is Runs,
        0 <= i < ms.len(),
        touches(ms[i], k),
    ensures
        0 <= e < joined_ends(ms).len(),
        joined_ends(ms)[e] == total(ms.take(i)) + end_within(ms[i], k),
    decreases ms.len(),
{
    let front = ms.drop_last();
    let last = ms[ms.len() - 1];
    assert forall|i: int| 0 <= i < front.len() implies valid(#[trigger] front[i])
        && front[i].data_type.shape is Runs by {
        assert(front[i] == ms[i]);
    }
    if i < front.len() {
        assert(front[i] == ms[i]);
        let e = lemma_end_kept(front, i, k);
        assert(front.take(i) =~= ms.take(i));
        e
    } else {
        assert(valid(last));
        assert(last.data_type.shape is Runs);
        let ends = shifted_ends(last, total(front) as int);
        lemma_run_bounds(last);
        lemma_touches(last, k);
        assert(ms.take(i) =~= front);
        assert(joined_ends(ms) == joined_ends(front) + ends);
        assert(ends.len() == run_count(last));
        assert(ends[k - first_run(last)] == total(front) + end_within(last, k));
        joined_ends(front).len() + (k - first_run(last))
    }
}

/// The run ends of the arrays, one array after the other, are those at which a run ends.
proof fn lemma_joined_ends(ms: Seq<ArrayModel>, end: int)
    requires
        all_valid(ms),
        forall|i: int| 0 <= i < ms.len() ==> (#[trigger] ms[i]).data_type.shape is Runs,
    ensures
        joined_ends(ms).contains(end) <==> a_run_ends(ms, end),
{
    if joined_ends(ms).contains(end) {
        let e = choose|e: int| 0 <= e < joined_ends(ms).len() && joined_ends(ms)[e] == end;
        let (i, k) = lemma_end_found(ms, e);
        lemma_slots(ms.take(i));
        assert(touches(ms[i], k));
    }
    if a_run_ends(ms, end) {
        let (i, k) = choose|i: int, r: int|
            0 <= i < ms.len() && #[trigger] touches(ms[i], r) && end == slots(ms.take(i))
                + end_within(ms[i], r);
        lemma_slots(ms.take(i));
        let e = lemma_end_kept(ms, i, k);
        assert(joined_ends(ms)[e] == end);
    }
}

/// The runs of concatenated run-end encoded arrays end just where the runs end that the rows of the arrays
/// touch: none is left out, cut or joined with another.
pub proof fn runs_end_where_they_did(
    ms: Seq<ArrayModel>,
    result: Result<AnyArray, ConcatError>,
    end: int,
)
    requires
        all_valid(ms),
        ms.len() >= 2,
        one_type(ms),
        ms[0].data_type.shape is Runs,
        result_of(ms, result),
        result is Ok,
    ensures
        contents(result->Ok_0).offset == 0,
        contents(result->Ok_0).ints.contains(end) <==> a_run_ends(ms, end),
{
    assert forall|i: int| 0 <= i < ms.len() implies (#[trigger] ms[i]).data_type.shape is Runs by {
        assert(ms[i].data_type == ms[0].data_type);
    }
    lemma_joined_ends(ms, end);
}

// Dictionaries

/// Whether one of the dictionaries stores this value.
pub open spec fn some_dictionary_stores(ms: Seq<ArrayModel>, value: Value) -> bool {
    exists|i: int, k: int|
        0 <= i < ms.len() && 0 <= k < ms[i].children[0].len && #[trigger] row(
            ms[i].children[0],
            k,
        ) == value
}

/// Whether a slot of dictionary arrays holds a value that lies before value `l` of the `j`-th: in the
/// dictionary of an array before it, or in its own.
pub open spec fn lies_before(ms: Seq<ArrayModel>, j: int, l: int, value: Value) -> bool {
    exists|i: int, p: int|
        0 <= i <= j && 0 <= p < ms[i].len && !null_at(ms[i], p) && (i < j || ms[i].ints[p] < l)
            && #[trigger] row(ms[i], p) == value
}

/// Whether a dictionary array has its values in the order in which the arrays and their dictionaries have
/// them first.
pub open spec fn values_are_in_order(ms: Seq<ArrayModel>, out: ArrayModel) -> bool {
    forall|a: int, b: int, j: int, q: int|
        #![trigger row(out.children[0], a), row(out.children[0], b), row(ms[j], q)]
        0 <= a < b < out.children[0].len && 0 <= j < ms.len() && 0 <= q < ms[j].len && !null_at(
            ms[j],
            q,
        ) && row(ms[j], q) == row(out.children[0], b) ==> lies_before(
            ms,
            j,
            ms[j].ints[q],
            row(out.children[0], a),
        )
}

/// The used values among the first `l` come before value `l`.
proof fn lemma_chosen_prefix(m: ArrayModel, used: Seq<bool>, l: int, n: int)
    requires
        0 <= l < n,
        used[l],
    ensures
        chosen(m, used, l).len() < chosen(m, used, n).len(),
        chosen(m, used, l) =~= chosen(m, used, n).take(chosen(m, used, l).len() as int),
        chosen(m, used, n)[chosen(m, used, l).len() as int] == row(m, l),
    decreases n,
{
    if l < n - 1 {
        lemma_chosen_prefix(m, used, l, n - 1);
    }
}

/// A used value is found where it is stored.
proof fn lemma_chosen_stored(m: ArrayModel, used: Seq<bool>, n: int, x: int) -> (k: int)
    requires
        0 <= x < chosen(m, used, n).len(),
    ensures
        0 <= k < n,
        used[k],
        row(m, k) == chosen(m, used, n)[x],
    decreases n,
{
    if used[n - 1] && x == chosen(m, used, n - 1).len() {
        n - 1
    } else {
        lemma_chosen_stored(m, used, n - 1, x)
    }
}

/// The values that an array refers to.
spec fn chosen_of(m: ArrayModel) -> Seq<Value> {
    chosen(m.children[0], referred_flags(m), m.children[0].len as int)
}

/// The values that the arrays before an array refer to, and its own, come first.
proof fn lemma_referred_prefix(ms: Seq<ArrayModel>, j: int)
    requires
        0 <= j < ms.len(),
    ensures
        (referred_values(ms.take(j)) + chosen_of(ms[j])).len() <= referred_values(ms).len(),
        referred_values(ms.take(j)) + chosen_of(ms[j]) =~= referred_values(ms).take(
            (referred_values(ms.take(j)) + chosen_of(ms[j])).len() as int,
        ),
    decreases ms.len(),
{
    if j == ms.len() - 1 {
        assert(ms.drop_last() =~= ms.take(j));
    } else {
        lemma_referred_prefix(ms.drop_last(), j);
        assert(ms.drop_last().take(j) =~= ms.take(j));
    }
}

/// A value that arrays refer to is found where it is stored.
proof fn lemma_referred_stored(ms: Seq<ArrayModel>, x: int) -> (place: (int, int))
    requires
        0 <= x < referred_values(ms).len(),
    ensures
        0 <= place.0 < ms.len(),
        0 <= place.1 < ms[place.0].children[0].len,
        refers_to(ms[place.0], place.1),
        row(ms[place.0].children[0], place.1) == referred_values(ms)[x],
    decreases ms.len(),
{
    let before = referred_values(ms.drop_last());
    if x < before.len() {
        lemma_referred_stored(ms.drop_last(), x)
    } else {
        let m = ms.last();
        let k = lemma_chosen_stored(
            m.children[0],
            referred_flags(m),
            m.children[0].len as int,
            x - before.len(),
        );
        (ms.len() - 1, k)
    }
}

/// Every value is held, and only values are held.
proof fn lemma_held(values: Seq<Value>)
    ensures
        forall|x: int|
            0 <= x < values.len() ==> held_with(Seq::empty(), values).contains(#[trigger] values[x]),
        forall|e: int|
            0 <= e < held_with(Seq::empty(), values).len() ==> values.contains(
                #[trigger] held_with(Seq::empty(), values)[e],
            ),
    decreases values.len(),
{
    let held = held_with(Seq::empty(), values);
    if values.len() > 0 {
        let less = values.drop_last();
        let before = held_with(Seq::empty(), less);
        lemma_held(less);
        if !before.contains(values.last()) {
            assert(held[before.len() as int] == values.last());
        }
        assert forall|x: int| 0 <= x < values.len() implies held.contains(#[trigger] values[x]) by {
            if x < less.len() {
                assert(before.contains(less[x]));
                let e = choose|e: int| 0 <= e < before.len() && before[e] == less[x];
                assert(held[e] == values[x]);
            }
        }
        assert forall|e: int| 0 <= e < held.len() implies values.contains(#[trigger] held[e]) by {
            if e < before.len() {
                assert(less.contains(before[e]));
                let x = choose|x: int| 0 <= x < less.len() && less[x] == before[e];
                assert(values[x] == held[e]);
            } else {
                assert(values[values.len() - 1] == held[e]);
            }
        }
    }
}

/// Of two values that are held, the first is met before the second.
proof fn lemma_held_in_order(values: Seq<Value>, a: int, b: int, y: int) -> (x: int)
    requires
        0 <= a < b < held_with(Seq::empty(), values).len(),
        0 <= y < values.len(),
        values[y] == held_with(Seq::empty(), values)[b],
        held_with(Seq::empty(), values).no_duplicates(),
    ensures
        0 <= x < y,
        values[x] == held_with(Seq::empty(), values)[a],
    decreases values.len(),
{
    let held = held_with(Seq::empty(), values);
    let less = values.drop_last();
    let before = held_with(Seq::empty(), less);
    lemma_held(less);
    assert(held =~= before || held =~= before.push(values.last()));
    if y < less.len() {
        assert(less[y] == values[y]);
        assert(before.contains(less[y]));
        let e = choose|e: int| 0 <= e < before.len() && before[e] == less[y];
        assert(held[e] == held[b]);
        assert forall|c: int, d: int| 0 <= c < before.len() && 0 <= d < before.len() && c != d
            implies before[c] != before[d] by {
            assert(held[c] != held[d]);
        }
        lemma_held_in_order(less, a, b, y)
    } else {
        assert(less.contains(before[a]));
        choose|x: int| 0 <= x < less.len() && less[x] == before[a]
    }
}

/// Merged values are in order.
proof fn lemma_merged_in_order(ms: Seq<ArrayModel>, out: ArrayModel)
    requires
        all_valid(ms),
        ms.len() >= 1,
        one_type(ms),
        ms[0].data_type.shape is Dictionary,
        merged_values(ms, out),
    ensures
        values_are_in_order(ms, out),
{
    let values = rows(out.children[0]);
    let all = referred_values(ms);
    assert(values.len() == out.children[0].len);
    assert forall|a: int, b: int, j: int, q: int|
        #![trigger row(out.children[0], a), row(out.children[0], b), row(ms[j], q)]
        0 <= a < b < out.children[0].len && 0 <= j < ms.len() && 0 <= q < ms[j].len && !null_at(
            ms[j],
            q,
        ) && row(ms[j], q) == row(out.children[0], b) implies lies_before(
        ms,
        j,
        ms[j].ints[q],
        row(out.children[0], a),
    ) by {
        let m = ms[j];
        let l = m.ints[q];
        let n = m.children[0].len as int;
        let flags = referred_flags(m);
        let value = row(out.children[0], a);
        assert(valid(m));
        assert(m.data_type == ms[0].data_type);
        assert(0 <= l < n);
        assert(row(m, q) == child_row(m, 0, l));
        assert(refers_to(m, l));
        assert(flags[l]);
        lemma_chosen_prefix(m.children[0], flags, l, n);
        lemma_referred_prefix(ms, j);
        let first = referred_values(ms.take(j));
        let own = chosen(m.children[0], flags, l);
        let y = (first.len() + own.len()) as int;
        let whole = first + chosen_of(m);
        assert(all.take(whole.len() as int)[y] == all[y]);
        assert(whole[y] == row(m.children[0], l));
        assert(values[b] == all[y]);
        let x = lemma_held_in_order(all, a, b, y);
        assert(values[a] == value);
        assert(all.take(whole.len() as int)[x] == all[x]);
        let (i, k) = if x < first.len() {
            assert(first[x] == whole[x]);
            lemma_referred_stored(ms.take(j), x)
        } else {
            assert(chosen_of(m).take(own.len() as int)[x - first.len()] == whole[x]);
            (j, lemma_chosen_stored(m.children[0], flags, l, x - first.len()))
        };
        assert(refers_to(ms[i], k));
        let p = choose|p: int|
            0 <= p < ms[i].len && !null_at(ms[i], p) && #[trigger] ms[i].ints[p] == k;
        assert(valid(ms[i]));
        assert(ms[i].data_type == ms[0].data_type);
        assert(row(ms[i], p) == child_row(ms[i], 0, k));
        assert(row(ms[i], p) == value);
    }
}

/// Whether a dictionary array has every value at most once, only such as a slot of the arrays holds, and in
/// the order in which the arrays and their dictionaries have them first.
pub open spec fn values_are_merged(ms: Seq<ArrayModel>, out: ArrayModel) -> bool {
    &&& forall|a: int, b: int|
        0 <= a < b < out.children[0].len ==> #[trigger] row(out.children[0], a) != #[trigger] row(
            out.children[0],
            b,
        )
    &&& forall|e: int|
        0 <= e < out.children[0].len ==> some_slot_holds(ms, #[trigger] row(out.children[0], e))
    &&& values_are_in_order(ms, out)
}

/// Whether a dictionary array has the values of all arrays, one array after the other, and keys that count
/// on from those of the arrays before.
pub open spec fn values_are_stacked(ms: Seq<ArrayModel>, out: ArrayModel) -> bool {
    let vs = column_of(ms, 0);
    &&& out.children[0].len == slots(vs)
    &&& forall|i: int, k: int|
        0 <= i < vs.len() && 0 <= k < vs[i].len ==> row(out.children[0], slots(vs.take(i)) + k)
            == #[trigger] row(vs[i], k)
    &&& forall|i: int, q: int|
        0 <= i < ms.len() && 0 <= q < ms[i].len && !null_at(ms[i], q) ==> out.ints[slots(ms.take(i))
            + q] == #[trigger] ms[i].ints[q] + slots(vs.take(i))
}

/// Whether a dictionary array has the values of the first of the arrays, and the keys of all.
pub open spec fn values_are_kept(ms: Seq<ArrayModel>, out: ArrayModel) -> bool {
    let v = ms[0].children[0];
    &&& out.children[0].len == v.len
    &&& forall|k: int| 0 <= k < v.len ==> row(out.children[0], k) == #[trigger] row(v, k)
    &&& forall|i: int, q: int|
        0 <= i < ms.len() && 0 <= q < ms[i].len && !null_at(ms[i], q) ==> out.ints[slots(ms.take(i))
            + q] == #[trigger] ms[i].ints[q]
}

/// Whether values of dictionaries that are not shared are to be merged: if they can be compared, and are
/// more than keys can number, or no fewer than slots.
pub open spec fn merges(ms: Seq<ArrayModel>) -> bool {
    let t = ms[0].data_type;
    &&& t.fields[1].data_type.shape is Bytes || t.fields[1].data_type.shape is Primitive
    &&& slots(column_of(ms, 0)) > index_max(t) || slots(column_of(ms, 0)) >= slots(ms)
}

/// What is known of values is what is seen of them.
pub proof fn lemma_known_values(ms: Seq<ArrayModel>, out: ArrayModel, shared: bool)
    requires
        all_valid(ms),
        ms.len() >= 2,
        one_type(ms),
        ms[0].data_type.shape is Dictionary,
        concatenates(ms, out),
        known_values(ms, out, shared),
    ensures
        shared ==> values_are_kept(ms, out),
        !shared && merges(ms) ==> values_are_merged(ms, out),
        !shared && !merges(ms) ==> values_are_stacked(ms, out),
{
    let vs = column_of(ms, 0);
    let values = rows(out.children[0]);
    lemma_values(ms);
    lemma_slots(vs);
    lemma_slots(ms);
    lemma_joined_len(vs);
    assert(values.len() == out.children[0].len);
    assert forall|i: int| 0 <= i <= ms.len() implies slots(#[trigger] ms.take(i)) == total(
        ms.take(i),
    ) by {
        lemma_slots(ms.take(i));
    }
    assert forall|i: int| 0 <= i <= vs.len() implies slots(#[trigger] vs.take(i)) == total(
        vs.take(i),
    ) by {
        lemma_slots(vs.take(i));
    }
    if shared {
        assert(rows(vs[0]).len() == vs[0].len);
        assert forall|k: int| 0 <= k < vs[0].len implies row(out.children[0], k) == #[trigger] row(
            ms[0].children[0],
            k,
        ) by {
            assert(values[k] == rows(vs[0])[k]);
        }
        assert forall|i: int, q: int|
            0 <= i < ms.len() && 0 <= q < ms[i].len && !null_at(ms[i], q) implies out.ints[slots(
            ms.take(i),
        ) + q] == #[trigger] ms[i].ints[q] by {
            assert(slots(ms.take(i)) == total(ms.take(i)));
        }
    } else if merges(ms) {
        assert(wants_merge(ms[0].data_type, ms));
        lemma_merged_in_order(ms, out);
        assert forall|e: int| 0 <= e < out.children[0].len implies some_slot_holds(
            ms,
            #[trigger] row(out.children[0], e),
        ) by {
            assert(refers(ms, values[e]));
        }
        assert forall|a: int, b: int| 0 <= a < b < out.children[0].len implies #[trigger] row(
            out.children[0],
            a,
        ) != #[trigger] row(out.children[0], b) by {
            assert(values[a] != values[b]);
        }
    } else {
        assert(!wants_merge(ms[0].data_type, ms));
        assert forall|i: int, k: int| 0 <= i < vs.len() && 0 <= k < vs[i].len implies row(
            out.children[0],
            slots(vs.take(i)) + k,
        ) == #[trigger] row(vs[i], k) by {
            lemma_joined_at(vs, i, k);
            assert(slots(vs.take(i)) == total(vs.take(i)));
            assert(values[total(vs.take(i)) + k] == row(out.children[0], total(vs.take(i)) + k));
        }
        assert forall|i: int, q: int|
            0 <= i < ms.len() && 0 <= q < ms[i].len && !null_at(ms[i], q) implies out.ints[slots(
            ms.take(i),
        ) + q] == #[trigger] ms[i].ints[q] + slots(vs.take(i)) by {
            assert(slots(ms.take(i)) == total(ms.take(i)));
            assert(slots(vs.take(i)) == total(vs.take(i)));
        }
    }
}

/// What becomes of the values of dictionaries: where they differ, they are merged if they are to be, and
/// put one array after the other otherwise; where they do not differ, they may be kept instead.
pub proof fn dictionary_values_follow(
    ms: Seq<ArrayModel>,
    result: Result<AnyArray, ConcatError>,
)
    requires
        all_valid(ms),
        ms.len() >= 2,
        one_type(ms),
        ms[0].data_type.shape is Dictionary,
        result_of(ms, result),
        result is Ok,
    ensures
        ({
            let out = contents(result->Ok_0);
            ||| if merges(ms) {
                values_are_merged(ms, out)
            } else {
                values_are_stacked(ms, out)
            }
            ||| values_are_kept(ms, out) && forall|i: int|
                0 <= i < ms.len() ==> rows(#[trigger] column_of(ms, 0)[i]) == rows(
                    ms[0].children[0],
                )
        }),
{
    let out = contents(result->Ok_0);
    lemma_values(ms);
    if known_values(ms, out, true) {
        lemma_known_values(ms, out, true);
        assert forall|i: int| 0 <= i < ms.len() implies rows(#[trigger] column_of(ms, 0)[i])
            == rows(ms[0].children[0]) by {
            assert(alike(child_models(ms, 0)[i], child_models(ms, 0)[0]));
        }
    } else {
        lemma_known_values(ms, out, false);
    }
}

/// No value is made up: every value of a concatenated dictionary is one that the arrays store.
pub proof fn dictionary_values_are_stored(
    ms: Seq<ArrayModel>,
    result: Result<AnyArray, ConcatError>,
    e: int,
)
    requires
        all_valid(ms),
        ms.len() >= 2,
        one_type(ms),
        ms[0].data_type.shape is Dictionary,
        result_of(ms, result),
        result is Ok,
        0 <= e < contents(result->Ok_0).children[0].len,
    ensures
        some_dictionary_stores(ms, row(contents(result->Ok_0).children[0], e)),
{
    let out = contents(result->Ok_0);
    let vs = column_of(ms, 0);
    lemma_values(ms);
    lemma_slots(vs);
    dictionary_values_follow(ms, result);
    let value = row(out.children[0], e);
    if merges(ms) && values_are_merged(ms, out) {
        assert(some_slot_holds(ms, value));
        let (i, q) = choose|i: int, q: int|
            0 <= i < ms.len() && 0 <= q < ms[i].len && !null_at(ms[i], q) && #[trigger] row(
                ms[i],
                q,
            ) == value;
        let m = ms[i];
        assert(valid(m));
        assert(m.data_type == ms[0].data_type);
        assert(0 <= m.ints[q] < m.children[0].len);
        assert(row(m, q) == child_row(m, 0, m.ints[q]));
        assert(row(m.children[0], m.ints[q]) == value);
    } else if values_are_kept(ms, out) {
        assert(row(ms[0].children[0], e) == value);
    } else {
        let (p, q) = lemma_locate(vs, e);
        lemma_slots(vs.take(p));
        assert(row(vs[p], q) == value);
        assert(row(ms[p].children[0], q) == value);
    }
}

/// Whether the test of shared buffers can tell of arrays of these values only that they are shared.
pub open(crate) spec fn surely_shared(ms: Seq<ArrayModel>) -> bool {
    forall|i: int, a: AnyArray, b: AnyArray|
        1 <= i < ms.len() && contents(a) == (#[trigger] ms[i]).children[0] && contents(b)
            == ms[0].children[0] ==> !#[trigger] may_tell(a, b, false)
}

/// Whether the test of shared buffers can tell of the values of the `i`-th array and the first only that
/// they are not shared.
pub open(crate) spec fn surely_apart(ms: Seq<ArrayModel>, i: int) -> bool {
    forall|a: AnyArray, b: AnyArray|
        contents(a) == ms[i].children[0] && contents(b) == ms[0].children[0]
            ==> !#[trigger] may_tell(a, b, true)
}

/// Values that are found to be shared are kept: concatenation succeeds, however many arrays there are, and
/// the result has just those values and the keys of the arrays.
pub proof fn shared_values_are_kept(ms: Seq<ArrayModel>, result: Result<AnyArray, ConcatError>)
    requires
        all_valid(ms),
        ms.len() >= 2,
        one_type(ms),
        ms[0].data_type.shape is Dictionary,
        traced(ms[0].data_type, ms, result),
        surely_shared(ms),
    ensures
        gives_all(ms, result),
        values_are_kept(ms, contents(result->Ok_0)),
{
    let (values, flags) = choose|values: Seq<AnyArray>, flags: Seq<bool>| #[trigger]
        sharing_told(ms, values, flags) && known_outcome(ms, result, all_true(flags));
    assert forall|i: int| 0 <= i < flags.len() implies #[trigger] flags[i] by {
        assert(models(values)[i] == child_models(ms, 0)[i]);
        assert(models(values)[0] == child_models(ms, 0)[0]);
        if i >= 1 && !flags[i] {
            assert(contents(values[i]) == ms[i].children[0]);
            assert(may_tell(values[i], values[0], false));
        }
    }
    lemma_known_values(ms, contents(result->Ok_0), true);
    lemma_holds_all(ms, contents(result->Ok_0));
}

/// Values that are found to be apart are merged if they are to be, and put one array after the other
/// otherwise.
pub proof fn values_apart_are_not_kept(
    ms: Seq<ArrayModel>,
    result: Result<AnyArray, ConcatError>,
    i: int,
)
    requires
        all_valid(ms),
        one_type(ms),
        1 <= i < ms.len(),
        ms[0].data_type.shape is Dictionary,
        traced(ms[0].data_type, ms, result),
        surely_apart(ms, i),
        result is Ok,
    ensures
        merges(ms) ==> values_are_merged(ms, contents(result->Ok_0)),
        !merges(ms) ==> values_are_stacked(ms, contents(result->Ok_0)),
{
    let (values, flags) = choose|values: Seq<AnyArray>, flags: Seq<bool>| #[trigger]
        sharing_told(ms, values, flags) && known_outcome(ms, result, all_true(flags));
    assert(models(values)[i] == child_models(ms, 0)[i]);
    assert(models(values)[0] == child_models(ms, 0)[0]);
    assert(models(values).len() == ms.len());
    assert(contents(values[i]) == ms[i].children[0]);
    assert(may_tell(values[i], values[0], flags[i]));
    assert(!flags[i]);
    lemma_known_values(ms, contents(result->Ok_0), false);
}

/// Lists of dictionaries whose values are found to be shared keep them, and succeed if their field takes
/// nulls and their values never fail.
pub proof fn lists_keep_shared_values(ms: Seq<ArrayModel>, result: Result<AnyArray, ConcatError>)
    requires
        all_valid(ms),
        ms.len() >= 2,
        one_type(ms),
        ms[0].data_type.shape is List,
        ms[0].data_type.fields[0].nullable,
        ms[0].data_type.fields[0].data_type.shape is Dictionary,
        never_fails(ms[0].data_type.fields[0].data_type.fields[1].data_type),
        result_of(ms, result),
        traced(ms[0].data_type, ms, result),
        surely_shared(items_of(ms)),
    ensures
        gives_all(ms, result),
        values_are_kept(items_of(ms), contents(result->Ok_0).children[0]),
{
    let t = ms[0].data_type;
    let ft = t.fields[0].data_type;
    let items = items_of(ms);
    assert(valid(ms[0]));
    lemma_used_type(ms);
    assert(items =~= used_models(ms));
    assert(part_traced(ft, items, result, 0));
    let inner = choose|inner: Result<AnyArray, ConcatError>| #[trigger]
        passes_on(inner, result, 0) && traced(ft, items, inner);
    assert(items[0].data_type == ft);
    shared_values_are_kept(items, inner);
    if let Err(error) = result {
        lists_fail_as_their_items_do(ms, error);
        errors_suit_values(items, error);
    } else {
        success_gives_all(ms, result);
    }
}

/// Dictionaries whose values never fail are not refused by Arrow.
proof fn errors_suit_values(ms: Seq<ArrayModel>, error: ConcatError)
    requires
        all_valid(ms),
        one_type(ms),
        ms.len() > 0,
        ms[0].data_type.shape is Dictionary,
        never_fails(ms[0].data_type.fields[1].data_type),
        result_of(ms, Err(error)),
    ensures
        !(error is Arrow),
{
    dictionaries_fail_as_their_values_do(ms, error);
    lemma_values(ms);
    if result_of(column_of(ms, 0), Err(error)) {
        lemma_carefree(column_of(ms, 0), Err(error));
    }
}

/// A column of dictionaries whose values are found to be shared is kept by a concatenated struct.
pub proof fn structs_keep_shared_values(
    ms: Seq<ArrayModel>,
    result: Result<AnyArray, ConcatError>,
    j: int,
)
    requires
        all_valid(ms),
        ms.len() >= 2,
        one_type(ms),
        ms[0].data_type.shape is Struct,
        columns_typed(ms),
        0 <= j < ms[0].data_type.fields.len(),
        ms[0].data_type.fields[j].data_type.shape is Dictionary,
        result_of(ms, result),
        result is Ok,
        traced(ms[0].data_type, ms, result),
        surely_shared(column_of(ms, j)),
    ensures
        values_are_kept(column_of(ms, j), contents(result->Ok_0).children[j]),
{
    let t = ms[0].data_type;
    let ft = t.fields[j].data_type;
    let cs = column_of(ms, j);
    lemma_column(ms, j);
    assert forall|i: int| 0 <= i < ms.len() implies valid(#[trigger] cs[i]) by {
        assert(valid(ms[i]));
        assert(ms[i].data_type == t);
        assert(valid(ms[i].children[j]));
    }
    assert(part_traced(ft, cs, result, j));
    let inner = choose|inner: Result<AnyArray, ConcatError>| #[trigger]
        passes_on(inner, result, j) && traced(ft, cs, inner);
    shared_values_are_kept(cs, inner);
}

/// A column of dictionaries whose values are found to be shared is kept by concatenated batches.
pub proof fn batches_keep_shared_values(
    schema: SchemaModel,
    bs: Seq<BatchModel>,
    result: Result<Batch, ConcatError>,
    i: int,
)
    requires
        bs.len() >= 2,
        0 <= i < schema.fields.len(),
        all_valid(columns_at(bs, i)),
        one_type(columns_at(bs, i)),
        columns_at(bs, i)[0].data_type.shape is Dictionary,
        columns_traced(schema, bs, result),
        result is Ok,
        surely_shared(columns_at(bs, i)),
    ensures
        values_are_kept(columns_at(bs, i), batch_contents(result->Ok_0).columns[i]),
{
    let cs = columns_at(bs, i);
    let column = batch_contents(result->Ok_0).columns[i];
    assert(cs =~= column_models(bs, i));
    assert(some_traced(bs, i, column));
    let array = choose|array: AnyArray| #[trigger] column_traced(bs, i, column, array);
    shared_values_are_kept(cs, Ok(array));
}

} // verus!

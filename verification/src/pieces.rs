//! Concatenation of lists of fixed size, maps and unions that cannot be copied whole: what they hold is
//! concatenated, and they are put together anew.
use arrow_buffer::{BooleanBufferBuilder, NullBuffer};
use arrow_schema::DataType;
use vstd::prelude::*;

use crate::capacity::{children, lemma_children, total_len};
use crate::checks::fixed_parts;
use crate::concat::{
    columns_pass, concat, explained, lemma_list_result, lemma_part_traced, outcome, part_traced,
    traced,
};
use crate::error::ConcatError;
use crate::joins::{
    all_valid, lemma_joined_at, lemma_joined_len, lemma_joined_nulls, lemma_list_join,
    lemma_list_rows_add, lemma_null_at, lemma_slot_nulls, lemma_take_step, lemma_total_prefix,
    lemma_validity, list_rows, one_type,
};
use crate::kernels::{concat_nulls, joinable};
use crate::limits::{as_ints, child_models, copyable, fits, fixed_models, sum, used_models};
use crate::model::{
    child_row, concatenates, first_with, holds_null, items, joined, joined_nulls, joined_validity,
    no_new_nulls, null_at, row, rows, sliced, total, valid, validity, ArrayModel, Shape, Value,
};
use crate::outside::{
    builder_bits, contents, fixed_list_array, full_bits, is_list, map_array, models, null_bits,
    option_bits, slots_lie, type_model, union_array, AnyArray,
};
use crate::parts::{lemma_used_type, list_parts, lists_of};
use crate::slices::{lemma_sliced_valid, lemma_whole_slice, slice_keeps_rows};
use crate::validity::slot_children;

verus! {

// Lists of fixed size

/// `n` lengths that are all the same.
pub open spec fn same_lengths(n: nat, size: int) -> Seq<int> {
    Seq::new(n, |i: int| size)
}

/// The sum of lengths that are all the same.
proof fn lemma_same_sum(n: nat, size: int)
    ensures
        sum(same_lengths(n, size)) == n * size,
    decreases n,
{
    if n > 0 {
        let less = (n - 1) as nat;
        lemma_same_sum(less, size);
        assert(same_lengths(n, size).drop_last() =~= same_lengths(less, size));
        assert(n * size == less * size + size) by (nonlinear_arith)
            requires
                n == less + 1,
        ;
    } else {
        assert(0 * size == 0) by (nonlinear_arith);
    }
}

/// The items of an array of lists of fixed size that lie in its slots.
pub open spec fn fixed(m: ArrayModel, size: int) -> ArrayModel {
    sliced(m.children[0], 0, m.len * size)
}

/// The rows of lists of fixed size are made of the items that lie in the slots.
proof fn lemma_fixed_rows(m: ArrayModel, size: i32)
    requires
        valid(m),
        m.data_type.shape == Shape::FixedList(size),
    ensures
        valid(fixed(m, size as int)),
        fixed(m, size as int).len == m.len * size,
        rows(m) == list_rows(
            validity(m),
            same_lengths(m.len, size as int),
            rows(fixed(m, size as int)),
        ),
{
    let n = size as int;
    let child = m.children[0];
    assert(valid(child));
    assert(0 <= m.len * n) by (nonlinear_arith)
        requires
            m.len >= 0,
            n >= 0,
    ;
    lemma_sliced_valid(child, 0, m.len * n);
    slice_keeps_rows(child, 0, m.len * n);
    let lengths = same_lengths(m.len, n);
    let made = list_rows(validity(m), lengths, rows(fixed(m, n)));
    assert forall|i: int| 0 <= i < m.len implies rows(m)[i] == #[trigger] made[i] by {
        lemma_null_at(m, i);
        assert(lengths.take(i) =~= same_lengths(i as nat, n));
        assert(lengths.take(i + 1) =~= same_lengths((i + 1) as nat, n));
        lemma_same_sum(i as nat, n);
        lemma_same_sum((i + 1) as nat, n);
        assert(0 <= i * n <= (i + 1) * n <= m.len * n) by (nonlinear_arith)
            requires
                0 <= i < m.len,
                n >= 0,
        ;
        if !null_at(m, i) {
            assert(items(m, i * n, (i + 1) * n)->List_0 =~= made[i]->List_0);
        }
    }
    assert(rows(m) =~= made);
}

/// The rows of lists of fixed size one array after the other are made of their items one array after
/// the other.
pub proof fn lemma_fixed_join(ms: Seq<ArrayModel>, size: i32)
    requires
        all_valid(ms),
        forall|i: int|
            0 <= i < ms.len() ==> (#[trigger] ms[i]).data_type.shape == Shape::FixedList(size),
        size >= 0,
    ensures
        joined(ms) == list_rows(
            joined_validity(ms),
            same_lengths(total(ms), size as int),
            joined(fixed_models(ms, size as int)),
        ),
        total(fixed_models(ms, size as int)) == total(ms) * size,
        all_valid(fixed_models(ms, size as int)),
    decreases ms.len(),
{
    let n = size as int;
    assert forall|i: int| 0 <= i < ms.len() implies valid(#[trigger] fixed_models(ms, n)[i]) by {
        assert(valid(ms[i]));
        assert(ms[i].data_type.shape == Shape::FixedList(size));
        lemma_fixed_rows(ms[i], size);
    }
    if ms.len() == 0 {
        assert(joined(ms) =~= list_rows(
            joined_validity(ms),
            same_lengths(total(ms), n),
            joined(fixed_models(ms, n)),
        ));
        assert(0 * n == 0) by (nonlinear_arith);
    } else {
        let front = ms.drop_last();
        let last = ms[ms.len() - 1];
        assert(valid(last));
        assert(last.data_type.shape == Shape::FixedList(size));
        assert forall|i: int| 0 <= i < front.len() implies valid(#[trigger] front[i])
            && front[i].data_type.shape == Shape::FixedList(size) by {
            assert(front[i] == ms[i]);
        }
        lemma_fixed_join(front, size);
        lemma_fixed_rows(last, size);
        lemma_joined_len(front);
        assert(fixed_models(ms, n).drop_last() =~= fixed_models(front, n));
        assert(fixed_models(ms, n).last() == fixed(last, n));
        lemma_joined_len(fixed_models(front, n));
        lemma_same_sum(total(front), n);
        lemma_same_sum(last.len, n);
        assert((total(front) + last.len) * n == total(front) * n + last.len * n)
            by (nonlinear_arith);
        assert(same_lengths(total(ms), n) =~= same_lengths(total(front), n) + same_lengths(
            last.len,
            n,
        ));
        lemma_list_rows_add(
            joined_validity(front),
            same_lengths(total(front), n),
            joined(fixed_models(front, n)),
            validity(last),
            same_lengths(last.len, n),
            rows(fixed(last, n)),
        );
    }
}

/// The validity bits of arrays, one array after the other, whether a slot is null or not.
fn concat_validity(arrays: &[AnyArray], len: usize) -> (r: NullBuffer)
    requires
        all_valid(models(arrays@)),
        len == total(models(arrays@)),
    ensures
        null_bits(r) == joined_validity(models(arrays@)),
{
    match concat_nulls(arrays, len) {
        Some(nulls) => nulls,
        None => {
            let mut builder = BooleanBufferBuilder::new(len);
            builder.append_n(len, true);
            assert(builder_bits(builder) =~= full_bits(None, len as nat));
            NullBuffer::new(builder.finish())
        },
    }
}

/// Concatenates lists of fixed size by concatenating the items that lie in their slots.
pub(crate) fn concat_fixed_lists(arrays: &[AnyArray], data_type: &DataType, size: i32) -> (r: Result<
    AnyArray,
    ConcatError,
>)
    requires
        joinable(models(arrays@)),
        arrays@.len() >= 2,
        type_model(*data_type) == contents(arrays@[0]).data_type,
        contents(arrays@[0]).data_type.shape == Shape::FixedList(size),
        fits(contents(arrays@[0]).data_type, models(arrays@)),
        !copyable(contents(arrays@[0]).data_type, models(arrays@)),
    ensures
        outcome(models(arrays@), r),
        traced(contents(arrays@[0]).data_type, models(arrays@), r),
    decreases contents(arrays@[0]).data_type, 1int,
{
    let ghost ms = models(arrays@);
    let ghost t = ms[0].data_type;
    let ghost fs = fixed_models(ms, size as int);
    proof {
        assert(ms[0] == contents(arrays@[0]));
        assert(valid(ms[0]));
        assert forall|i: int| 0 <= i < arrays@.len() implies contents(
            #[trigger] arrays@[i],
        ).data_type == t by {
            assert(ms[i].data_type == t);
        }
        assert forall|i: int| 0 <= i < ms.len() implies (#[trigger] ms[i]).data_type.shape
            == Shape::FixedList(size) by {
            assert(ms[i] == contents(arrays@[i]));
        }
        lemma_fixed_join(ms, size);
        lemma_joined_len(ms);
    }
    let len: usize = total_len(arrays);
    let nulls = concat_validity(arrays, len);
    let values = fixed_parts(arrays, size);
    proof {
        assert(models(values@).len() == ms.len());
        assert(contents(values@[0]) == models(values@)[0]);
        assert forall|i: int| 0 <= i < fs.len() implies (#[trigger] fs[i]).data_type
            == t.fields[0].data_type by {
            assert(models(values@)[i] == contents(values@[i]));
            assert(contents(arrays@[i]).data_type == t);
        }
        assert(one_type(fs));
    }
    let concatenated = match concat(values.as_slice()) {
        Ok(array) => array,
        Err(error) => {
            let result = Err(error);
            proof {
                lemma_part_traced(t.fields[0].data_type, fs, result, result, 0);
            }
            return result;
        },
    };
    let ghost inner = Ok::<AnyArray, ConcatError>(concatenated);
    let ghost v = contents(concatenated);
    let ghost bits = null_bits(nulls);
    match fixed_list_array(data_type, &concatenated, nulls) {
        Ok(array) => {
            proof {
                let m = contents(array);
                assert(m.nulls == joined_nulls(ms));
                lemma_fixed_rows(m, size);
                lemma_validity(m, joined_validity(ms));
                lemma_whole_slice(v);
                assert(fixed(m, size as int) == sliced(v, 0, v.len as int));
                lemma_slot_nulls(ms, m);
            }
            let result = Ok(array);
            proof {
                lemma_part_traced(t.fields[0].data_type, fs, inner, result, 0);
            }
            result
        },
        Err(error) => {
            let result = Err(ConcatError::Arrow(error));
            proof {
                lemma_part_traced(t.fields[0].data_type, fs, inner, result, 0);
            }
            result
        },
    }
}

// Maps

/// Concatenates maps by concatenating the entries that their offsets span.
pub(crate) fn concat_maps(arrays: &[AnyArray], data_type: &DataType) -> (r: Result<
    AnyArray,
    ConcatError,
>)
    requires
        joinable(models(arrays@)),
        arrays@.len() >= 2,
        type_model(*data_type) == contents(arrays@[0]).data_type,
        contents(arrays@[0]).data_type.shape is MapEntries,
        fits(contents(arrays@[0]).data_type, models(arrays@)),
        !copyable(contents(arrays@[0]).data_type, models(arrays@)),
    ensures
        outcome(models(arrays@), r),
        traced(contents(arrays@[0]).data_type, models(arrays@), r),
    decreases contents(arrays@[0]).data_type, 1int,
{
    let ghost ms = models(arrays@);
    let ghost t = ms[0].data_type;
    let ghost us = used_models(ms);
    proof {
        assert(ms[0] == contents(arrays@[0]));
        assert(valid(ms[0]));
        lemma_used_type(ms);
        assert forall|i: int| 0 <= i < arrays@.len() implies contents(
            #[trigger] arrays@[i],
        ).data_type == t by {
            assert(ms[i].data_type == t);
        }
        lemma_list_join(ms);
        lemma_joined_len(ms);
        assert(lists_of(arrays@, false));
    }
    let len: usize = total_len(arrays);
    let nulls = concat_nulls(arrays, len);
    let (values, lengths) = list_parts(arrays, false);
    proof {
        assert(models(values@).len() == ms.len());
        assert(models(values@)[0] == us[0]);
        assert(contents(values@[0]) == us[0]);
        assert(as_ints(lengths@).len() == lengths@.len());
        assert(fits(t.fields[0].data_type, us));
        assert(total(us) <= usize::MAX);
    }
    let concatenated = match concat(values.as_slice()) {
        Ok(array) => array,
        Err(error) => {
            let result = Err(error);
            proof {
                lemma_part_traced(t.fields[0].data_type, us, result, result, 0);
            }
            return result;
        },
    };
    let ghost inner = Ok::<AnyArray, ConcatError>(concatenated);
    let ghost v = contents(concatenated);
    let ghost bits = option_bits(nulls);
    match map_array(data_type, lengths, &concatenated, nulls) {
        Ok(array) => {
            proof {
                let m = contents(array);
                assert(is_list(m, t, lengths@, v, bits));
                lemma_list_result(ms, m, v);
                lemma_slot_nulls(ms, m);
            }
            let result = Ok(array);
            proof {
                lemma_part_traced(t.fields[0].data_type, us, inner, result, 0);
            }
            result
        },
        Err(error) => {
            let result = Err(ConcatError::Arrow(error));
            proof {
                lemma_part_traced(t.fields[0].data_type, us, inner, result, 0);
            }
            result
        },
    }
}

// Unions

/// Every slot of the joined arrays is a slot of one of them.
pub proof fn lemma_locate(ms: Seq<ArrayModel>, e: int) -> (r: (int, int))
    requires
        0 <= e < total(ms),
    ensures
        0 <= r.0 < ms.len(),
        0 <= r.1 < ms[r.0].len,
        e == total(ms.take(r.0)) + r.1,
    decreases ms.len(),
{
    let front = ms.drop_last();
    let n = front.len() as int;
    if e < total(front) {
        let (p, q) = lemma_locate(front, e);
        assert(front.take(p) =~= ms.take(p));
        (p, q)
    } else {
        assert(ms.take(n) =~= front);
        (n, e - total(front))
    }
}

/// Where the slots of unions lie in their children when the children of all arrays are put one array
/// after the other: in those of the `p`-th array behind the children of the arrays before it.
pub open spec fn place(ms: Seq<ArrayModel>, p: int, q: int) -> int {
    ms[p].offsets[q] + total(child_models(ms, ms[p].ints[q]).take(p))
}

/// Whether the slots of the first `n` unions have these type ids and, where `dense`, lie at these
/// offsets.
pub open spec fn slots_follow(
    ms: Seq<ArrayModel>,
    n: int,
    ids: Seq<i8>,
    offsets: Seq<i32>,
    dense: bool,
) -> bool {
    &&& ids.len() == total(ms.take(n))
    &&& dense ==> offsets.len() == ids.len()
    &&& forall|p: int, q: int|
        0 <= p < n && 0 <= q < ms[p].len ==> {
            let e = total(ms.take(p)) + q;
            &&& #[trigger] ms[p].ints[q] == first_with(ms[0].data_type.fields, ids[e] as int, 0)
            &&& dense ==> offsets[e] == place(ms, p, q)
        }
}

/// A slot of the first `n` arrays is one of the joined slots.
proof fn lemma_slot_before(ms: Seq<ArrayModel>, n: int, p: int, q: int)
    requires
        0 <= p < n <= ms.len(),
        0 <= q < ms[p].len,
    ensures
        total(ms.take(p)) + q < total(ms.take(n)),
{
    lemma_take_step(ms, p);
    lemma_total_prefix(ms.take(n), p + 1);
    assert(ms.take(n).take(p + 1) =~= ms.take(p + 1));
}

/// The type ids of unions, one array after the other, and where their slots lie if they are dense.
fn union_slots(arrays: &[AnyArray], width: usize, dense: bool) -> (r: (Vec<i8>, Vec<i32>))
    requires
        all_valid(models(arrays@)),
        one_type(models(arrays@)),
        arrays@.len() > 0,
        total(models(arrays@)) <= usize::MAX,
        contents(arrays@[0]).data_type.shape == (Shape::Union { dense }),
        width == contents(arrays@[0]).data_type.fields.len(),
        forall|j: int|
            0 <= j < width ==> total(#[trigger] child_models(models(arrays@), j)) <= i32::MAX,
    ensures
        slots_follow(models(arrays@), arrays@.len() as int, r.0@, r.1@, dense),
{
    let ghost ms = models(arrays@);
    let ghost t = ms[0].data_type;
    let mut ids: Vec<i8> = Vec::new();
    let mut offsets: Vec<i32> = Vec::new();
    let mut bases: Vec<i32> = Vec::with_capacity(width);
    let mut j: usize = 0;
    while j < width
        invariant
            0 <= j <= width,
            bases@.len() == j,
            forall|k: int| 0 <= k < j ==> #[trigger] bases@[k] == 0,
        decreases width - j,
    {
        bases.push(0);
        j += 1;
    }
    let mut i: usize = 0;
    proof {
        assert(ms[0] == contents(arrays@[0]));
        assert(ms.take(0) =~= Seq::empty());
        assert forall|k: int| 0 <= k < width implies #[trigger] bases@[k] == total(
            child_models(ms, k).take(0),
        ) by {
            assert(child_models(ms, k).take(0) =~= Seq::empty());
        }
    }
    while i < arrays.len()
        invariant
            0 <= i <= arrays@.len(),
            ms == models(arrays@),
            all_valid(ms),
            one_type(ms),
            ms.len() > 0,
            t == ms[0].data_type,
            t.shape == (Shape::Union { dense }),
            width == t.fields.len(),
            forall|k: int| 0 <= k < width ==> total(#[trigger] child_models(ms, k)) <= i32::MAX,
            bases@.len() == width,
            forall|k: int|
                0 <= k < width ==> #[trigger] bases@[k] == total(
                    child_models(ms, k).take(i as int),
                ),
            slots_follow(ms, i as int, ids@, offsets@, dense),
        decreases arrays@.len() - i,
    {
        let array = &arrays[i];
        let ghost m = ms[i as int];
        proof {
            assert(m == contents(arrays@[i as int]));
            assert(valid(m));
            assert(m.data_type == t);
            lemma_take_step(ms, i as int);
        }
        let more_ids = array.slot_ids();
        let homes = slot_children(array);
        let more_offsets: Vec<i32> = if dense {
            array.slot_offsets()
        } else {
            Vec::new()
        };
        let ghost old_ids = ids@;
        let ghost old_offsets = offsets@;
        let mut q: usize = 0;
        while q < more_ids.len()
            invariant
                0 <= q <= more_ids@.len(),
                i < ms.len(),
                m == ms[i as int],
                valid(m),
                t == ms[0].data_type,
                m.data_type == t,
                t.shape == (Shape::Union { dense }),
                width == t.fields.len(),
                more_ids@.len() == m.len,
                homes@.len() == m.len,
                forall|k: int| 0 <= k < homes@.len() ==> #[trigger] homes@[k] == m.ints[k],
                forall|k: int|
                    0 <= k < more_ids@.len() ==> m.ints[k] == first_with(
                        t.fields,
                        #[trigger] more_ids@[k] as int,
                        0,
                    ),
                dense ==> more_offsets@.len() == m.len && forall|k: int|
                    0 <= k < more_offsets@.len() ==> #[trigger] more_offsets@[k] == m.offsets[k],
                forall|k: int| 0 <= k < width ==> total(#[trigger] child_models(ms, k)) <= i32::MAX,
                bases@.len() == width,
                forall|k: int|
                    0 <= k < width ==> #[trigger] bases@[k] == total(
                        child_models(ms, k).take(i as int),
                    ),
                ids@ == old_ids + more_ids@.take(q as int),
                dense ==> offsets@.len() == old_offsets.len() + q,
                dense ==> forall|k: int|
                    0 <= k < old_offsets.len() ==> #[trigger] offsets@[k] == old_offsets[k],
                dense ==> forall|k: int|
                    old_offsets.len() <= k < offsets@.len() ==> #[trigger] offsets@[k] == place(
                        ms,
                        i as int,
                        k - old_offsets.len(),
                    ),
            decreases more_ids@.len() - q,
        {
            let ghost here = offsets@;
            ids.push(more_ids[q]);
            assert(ids@ =~= old_ids + more_ids@.take(q + 1));
            if dense {
                let home: usize = homes[q];
                let ghost vs = child_models(ms, home as int);
                proof {
                    assert(0 <= m.ints[q as int] < m.children.len());
                    assert(0 <= m.offsets[q as int] < m.children[m.ints[q as int]].len);
                    lemma_take_step(vs, i as int);
                    lemma_total_prefix(vs, i + 1);
                    assert(vs[i as int] == m.children[home as int]);
                    assert(bases@[home as int] == total(vs.take(i as int)));
                }
                offsets.push(more_offsets[q] + bases[home]);
                proof {
                    assert forall|k: int| old_offsets.len() <= k < offsets@.len() implies (
                    #[trigger] offsets@[k]) == place(ms, i as int, k - old_offsets.len()) by {
                        if k < here.len() {
                            assert(offsets@[k] == here[k]);
                        }
                    }
                    assert forall|k: int| 0 <= k < old_offsets.len() implies #[trigger] offsets@[k]
                        == old_offsets[k] by {
                        assert(offsets@[k] == here[k]);
                    }
                }
            }
            q += 1;
        }
        assert(more_ids@.take(q as int) =~= more_ids@);
        let mut j: usize = 0;
        while j < width
            invariant
                0 <= j <= width,
                i < ms.len(),
                m == ms[i as int],
                m == contents(*array),
                m.children.len() == width,
                m.data_type.shape is Union,
                bases@.len() == width,
                forall|k: int| 0 <= k < width ==> total(#[trigger] child_models(ms, k)) <= i32::MAX,
                forall|k: int|
                    0 <= k < j ==> #[trigger] bases@[k] == total(child_models(ms, k).take(i + 1)),
                forall|k: int|
                    j <= k < width ==> #[trigger] bases@[k] == total(
                        child_models(ms, k).take(i as int),
                    ),
            decreases width - j,
        {
            let len: usize = array.child(j).len();
            let ghost vs = child_models(ms, j as int);
            proof {
                lemma_take_step(vs, i as int);
                lemma_total_prefix(vs, i + 1);
                assert(vs[i as int] == m.children[j as int]);
                assert(bases@[j as int] == total(vs.take(i as int)));
            }
            let base: i32 = bases[j] + len as i32;
            bases.set(j, base);
            j += 1;
        }
        proof {
            assert(total(ms.take(i + 1)) == total(ms.take(i as int)) + m.len);
            assert forall|p: int, q: int| 0 <= p < i + 1 && 0 <= q < ms[p].len implies {
                let e = total(ms.take(p)) + q;
                &&& #[trigger] ms[p].ints[q] == first_with(t.fields, ids@[e] as int, 0)
                &&& dense ==> offsets@[e] == place(ms, p, q)
            } by {
                let e = total(ms.take(p)) + q;
                if p < i {
                    lemma_slot_before(ms, i as int, p, q);
                    assert(ids@[e] == old_ids[e]);
                    if dense {
                        assert(offsets@[e] == old_offsets[e]);
                    }
                } else {
                    assert(ids@[e] == more_ids@[q]);
                    if dense {
                        assert(offsets@[e] == place(ms, i as int, e - old_offsets.len()));
                    }
                }
            }
        }
        i += 1;
    }
    (ids, offsets)
}

/// The children of sparse unions have as many slots as the unions.
proof fn lemma_sparse_total(ms: Seq<ArrayModel>, j: int)
    requires
        all_valid(ms),
        forall|i: int|
            0 <= i < ms.len() ==> (#[trigger] ms[i]).data_type.shape == (Shape::Union {
                dense: false,
            }) && 0 <= j < ms[i].children.len(),
    ensures
        total(child_models(ms, j)) == total(ms),
    decreases ms.len(),
{
    if ms.len() > 0 {
        let front = ms.drop_last();
        let last = ms[ms.len() - 1];
        assert(valid(last));
        assert(last.data_type.shape == (Shape::Union { dense: false }));
        assert(last.children[j].len == last.len);
        assert forall|i: int| 0 <= i < front.len() implies valid(#[trigger] front[i])
            && front[i].data_type.shape == (Shape::Union { dense: false }) && 0 <= j
            < front[i].children.len() by {
            assert(front[i] == ms[i]);
        }
        lemma_sparse_total(front, j);
        assert(child_models(ms, j).drop_last() =~= child_models(front, j));
    }
}

/// A union of the joined slots and children has the joined rows.
proof fn lemma_union_result(
    ms: Seq<ArrayModel>,
    m: ArrayModel,
    ids: Seq<i8>,
    offsets: Seq<i32>,
    dense: bool,
)
    requires
        all_valid(ms),
        one_type(ms),
        ms.len() > 0,
        ms[0].data_type.shape == (Shape::Union { dense }),
        slots_follow(ms, ms.len() as int, ids, offsets, dense),
        valid(m),
        m.data_type == ms[0].data_type,
        m.len == ids.len(),
        m.ints.len() == ids.len(),
        forall|i: int|
            0 <= i < ids.len() ==> #[trigger] m.ints[i] == first_with(
                m.data_type.fields,
                ids[i] as int,
                0,
            ),
        dense ==> m.offsets.len() == offsets.len() && forall|i: int|
            0 <= i < offsets.len() ==> #[trigger] m.offsets[i] == offsets[i],
        forall|j: int|
            0 <= j < m.children.len() ==> rows(#[trigger] m.children[j]) == joined(
                child_models(ms, j),
            ),
    ensures
        rows(m) == joined(ms),
        m.len == total(ms),
{
    let t = ms[0].data_type;
    assert(ms.take(ms.len() as int) =~= ms);
    lemma_joined_len(ms);
    assert forall|e: int| 0 <= e < m.len implies rows(m)[e] == #[trigger] joined(ms)[e] by {
        let (p, q) = lemma_locate(ms, e);
        let n = ms[p];
        assert(valid(n));
        assert(n.data_type == t);
        let j = n.ints[q];
        assert(j == first_with(t.fields, ids[e] as int, 0));
        assert(m.ints[e] == j);
        let vs = child_models(ms, j);
        assert(0 <= j < n.children.len());
        let at = if dense {
            n.offsets[q]
        } else {
            q
        };
        lemma_joined_at(ms, p, q);
        lemma_joined_at(vs, p, at);
        assert(vs[p] == n.children[j]);
        assert(rows(n)[q] == row(n, q));
        assert(row(n, q) == Value::Tagged(j, Box::new(child_row(n, j, at))));
        assert(child_row(n, j, at) == rows(vs[p])[at]);
        let here = if dense {
            m.offsets[e]
        } else {
            e
        };
        if dense {
            assert(offsets[e] == place(ms, p, q));
        } else {
            let front = ms.take(p);
            assert forall|i: int| 0 <= i < front.len() implies valid(#[trigger] front[i])
                && front[i].data_type.shape == (Shape::Union { dense: false }) && 0 <= j
                < front[i].children.len() by {
                assert(front[i] == ms[i]);
                assert(valid(ms[i]));
                assert(ms[i].data_type == t);
            }
            lemma_sparse_total(front, j);
            assert(child_models(front, j) =~= vs.take(p));
        }
        assert(row(m, e) == Value::Tagged(j, Box::new(child_row(m, j, here))));
        assert(child_row(m, j, here) == rows(m.children[j])[here]);
    }
    assert(rows(m) =~= joined(ms));
}

/// Concatenates unions by concatenating each of their children.
pub(crate) fn concat_unions(arrays: &[AnyArray], data_type: &DataType, dense: bool) -> (r: Result<
    AnyArray,
    ConcatError,
>)
    requires
        joinable(models(arrays@)),
        arrays@.len() >= 2,
        type_model(*data_type) == contents(arrays@[0]).data_type,
        contents(arrays@[0]).data_type.shape == (Shape::Union { dense }),
        fits(contents(arrays@[0]).data_type, models(arrays@)),
        !copyable(contents(arrays@[0]).data_type, models(arrays@)),
    ensures
        outcome(models(arrays@), r),
        traced(contents(arrays@[0]).data_type, models(arrays@), r),
    decreases contents(arrays@[0]).data_type, 1int,
{
    let ghost ms = models(arrays@);
    let ghost t = ms[0].data_type;
    let ghost n = t.fields.len();
    proof {
        assert(ms[0] == contents(arrays@[0]));
        assert(valid(ms[0]));
        assert forall|i: int| 0 <= i < ms.len() implies {
            &&& (#[trigger] ms[i]).data_type.shape == (Shape::Union { dense })
            &&& ms[i].children.len() == n
            &&& ms[i].nulls is None
        } by {
            assert(valid(ms[i]));
            assert(ms[i].data_type == t);
        }
    }
    let width: usize = arrays[0].num_columns();
    let mut columns: Vec<AnyArray> = Vec::with_capacity(width);
    let mut j: usize = 0;
    while j < width
        invariant
            0 <= j <= width,
            width == n,
            n == t.fields.len(),
            ms == models(arrays@),
            joinable(ms),
            ms.len() >= 2,
            t == ms[0].data_type,
            t.shape == (Shape::Union { dense }),
            fits(t, ms),
            !copyable(t, ms),
            forall|i: int|
                0 <= i < ms.len() ==> {
                    &&& (#[trigger] ms[i]).data_type.shape == (Shape::Union { dense })
                    &&& ms[i].children.len() == n
                    &&& ms[i].nulls is None
                },
            columns@.len() == j,
            forall|k: int|
                0 <= k < j ==> {
                    &&& concatenates(child_models(ms, k), contents(#[trigger] columns@[k]))
                    &&& no_new_nulls(child_models(ms, k), contents(columns@[k]))
                    &&& traced(t.fields[k].data_type, child_models(ms, k), Ok(columns@[k]))
                },
            columns_pass(t, ms, j as int),
        decreases width - j, 0int,
    {
        let ghost field = t.fields[j as int];
        proof {
            lemma_children(ms, j as int);
            assert forall|i: int| 0 <= i < arrays@.len() implies j < contents(
                #[trigger] arrays@[i],
            ).children.len() && contents(arrays@[i]).data_type.shape !is Runs by {
                assert(ms[i] == contents(arrays@[i]));
            }
        }
        let extracted = children(arrays, j);
        proof {
            assert(models(extracted@).len() == ms.len());
            assert(models(extracted@)[0] == child_models(ms, j as int)[0]);
            assert(contents(extracted@[0]).data_type == t.fields[j as int].data_type);
            assert(fits(t.fields[j as int].data_type, child_models(ms, j as int)));
        }
        match concat(extracted.as_slice()) {
            Ok(column) => {
                columns.push(column);
            },
            Err(error) => {
                assert(explained(t.fields[j as int].data_type, child_models(ms, j as int), error));
                let result = Err(error);
                assert(traced(t.fields[j as int].data_type, child_models(ms, j as int), result));
                return result;
            },
        }
        j += 1;
    }
    proof {
        assert forall|k: int| 0 <= k < width implies total(#[trigger] child_models(ms, k))
            <= i32::MAX by {
            assert(fits(t.fields[k].data_type, child_models(ms, k)));
        }
    }
    let (ids, offsets) = union_slots(arrays, width, dense);
    let ghost id_seq = ids@;
    let ghost offset_seq = offsets@;
    let offsets: Option<Vec<i32>> = if dense {
        Some(offsets)
    } else {
        None
    };
    proof {
        assert(ms.take(ms.len() as int) =~= ms);
        assert forall|k: int| 0 <= k < columns@.len() implies {
            &&& valid(contents(#[trigger] columns@[k]))
            &&& contents(columns@[k]).len <= i32::MAX
            &&& !dense ==> contents(columns@[k]).len == id_seq.len()
        } by {
            assert(concatenates(child_models(ms, k), contents(columns@[k])));
            if !dense {
                lemma_sparse_total(ms, k);
            }
        }
        assert forall|e: int| 0 <= e < id_seq.len() implies {
            let j = first_with(t.fields, #[trigger] id_seq[e] as int, 0);
            &&& j < t.fields.len()
            &&& offsets matches Some(o) ==> 0 <= o@[e] < models(columns@)[j].len
        } by {
            let (p, q) = lemma_locate(ms, e);
            let m = ms[p];
            assert(valid(m));
            let j = m.ints[q];
            assert(0 <= j < m.children.len());
            if dense {
                let vs = child_models(ms, j);
                assert(offset_seq[e] == place(ms, p, q));
                assert(0 <= m.offsets[q] < m.children[m.ints[q]].len);
                assert(vs[p] == m.children[j]);
                lemma_take_step(vs, p);
                lemma_total_prefix(vs, p + 1);
                assert(concatenates(vs, contents(columns@[j])));
            }
        }
        assert(slots_lie(t.fields, id_seq, offsets, models(columns@)));
    }
    let ghost column_models = models(columns@);
    match union_array(data_type, ids, offsets, columns) {
        Ok(array) => {
            proof {
                let m = contents(array);
                assert forall|k: int| 0 <= k < m.children.len() implies rows(
                    #[trigger] m.children[k],
                ) == joined(child_models(ms, k)) by {
                    assert(m.children[k] == contents(columns@[k]));
                    assert(concatenates(child_models(ms, k), contents(columns@[k])));
                }
                lemma_union_result(ms, m, id_seq, offset_seq, dense);
                lemma_joined_nulls(ms);
                if holds_null(m) {
                    let k = choose|k: int|
                        0 <= k < m.children.len() && holds_null(#[trigger] m.children[k]);
                    let vs = child_models(ms, k);
                    assert(m.children[k] == contents(columns@[k]));
                    assert(no_new_nulls(vs, contents(columns@[k])));
                    let i = choose|i: int| 0 <= i < vs.len() && holds_null(#[trigger] vs[i]);
                    assert(holds_null(ms[i].children[k]));
                    assert(holds_null(ms[i]));
                }
                let result = Ok::<AnyArray, ConcatError>(array);
                assert forall|j: int| 0 <= j < n implies part_traced(
                    (#[trigger] t.fields[j]).data_type,
                    child_models(ms, j),
                    result,
                    j,
                ) by {
                    let inner = Ok::<AnyArray, ConcatError>(columns@[j]);
                    assert(m.children[j] == contents(columns@[j]));
                    lemma_part_traced(t.fields[j].data_type, child_models(ms, j), inner, result, j);
                }
            }
            Ok(array)
        },
        Err(error) => {
            let result = Err(ConcatError::Arrow(error));
            result
        },
    }
}

} // verus!

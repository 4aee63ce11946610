//! Concatenation of arrays that hold no other arrays, and of arrays that are copied whole.
use arrow_buffer::{BooleanBufferBuilder, NullBuffer};
use arrow_data::transform::Capacities;
use arrow_data::ArrayData;
use vstd::prelude::*;

use crate::builders::{accepts, built, built_type, made_for, ColumnBuilder};
use crate::capacity::{binary_totals, lemma_extent_bytes, lemma_extent_prefix, total_len};
use crate::joins::{
    all_valid, lemma_joined_len, lemma_joined_nulls, lemma_take_step, lemma_total_prefix, one_type,
    stacked,
};
use crate::limits::{ample, buffers_total, bytes_fit, copies_fit, extent, extent_total, sources_fit};
use crate::model::{
    concatenates, joined_nulls, joined_validity, no_new_nulls, offset_max, total, valid, validity, ArrayModel,
    Primitive, Shape,
};
use crate::outside::{
    builder_bits, contents, copied, copy_next, copy_sources, data_contents, data_models,
    finish_copy, full_bits, hint, hint_fits, models, null_bits, option_bits, spacious, start_copy,
    AnyArray,
};

verus! {

/// Whether there are arrays, all valid, of one type, and not more slots than can be counted.
pub open spec fn joinable(ms: Seq<ArrayModel>) -> bool {
    &&& ms.len() > 0
    &&& all_valid(ms)
    &&& one_type(ms)
    &&& total(ms) <= usize::MAX
}

/// The first view arrays have no more buffers than all.
pub proof fn lemma_buffers_prefix(ms: Seq<ArrayModel>, i: int)
    requires
        0 <= i <= ms.len(),
    ensures
        buffers_total(ms.take(i)) <= buffers_total(ms),
    decreases ms.len() - i,
{
    if i < ms.len() {
        lemma_take_step(ms, i);
        lemma_buffers_prefix(ms, i + 1);
    } else {
        assert(ms.take(i) =~= ms);
    }
}

/// A builder that was given the first arrays accepts the next.
proof fn lemma_accepts(ms: Seq<ArrayModel>, i: int)
    requires
        joinable(ms),
        0 <= i < ms.len(),
        ms[0].data_type.shape matches Shape::Bytes { large } ==> extent_total(ms) <= offset_max(
            large,
        ),
        ms[0].data_type.shape is View ==> buffers_total(ms) <= u32::MAX,
    ensures
        accepts(ms.take(i), ms[i]),
        ms.take(i).push(ms[i]) == ms.take(i + 1),
{
    lemma_take_step(ms, i);
    lemma_total_prefix(ms, i + 1);
    assert(ms[i].data_type == ms[0].data_type);
    if ms[0].data_type.shape is Bytes {
        assert forall|k: int| 0 <= k < ms.len() implies 0 <= extent(#[trigger] ms[k]) by {
            assert(valid(ms[k]));
            assert(ms[k].data_type == ms[0].data_type);
            lemma_extent_bytes(ms[k]);
        }
        lemma_extent_prefix(ms, i + 1);
    }
    lemma_buffers_prefix(ms, i + 1);
}

/// A number if memory for as many slots can be addressed, zero otherwise.
pub open spec fn if_ample(n: int) -> int {
    if ample(n) {
        n
    } else {
        0
    }
}

/// A number if memory for as many slots can be addressed, zero otherwise.
fn limited(n: usize) -> (r: usize)
    ensures
        r == if_ample(n as int),
        ample(r as int),
{
    if n as u128 * 64 + 128 <= isize::MAX as u128 {
        n
    } else {
        0
    }
}

/// An empty builder for the type of the arrays, with room for all their slots.
fn start_column(arrays: &[AnyArray]) -> (r: ColumnBuilder)
    requires
        arrays@.len() > 0,
        total(models(arrays@)) <= usize::MAX,
        contents(arrays@[0]).data_type.shape is Boolean || contents(
            arrays@[0],
        ).data_type.shape is Primitive || contents(arrays@[0]).data_type.shape is View,
    ensures
        built_type(r) == contents(arrays@[0]).data_type,
        built(r) == Seq::<ArrayModel>::empty(),
        made_for(r) == (if_ample(total(models(arrays@)) as int), 0int),
{
    ColumnBuilder::new(&arrays[0], limited(total_len(arrays)))
}

/// An empty builder for the type of arrays of strings or byte strings, with room for all their slots
/// and bytes.
fn start_bytes(arrays: &[AnyArray], large: bool) -> (r: ColumnBuilder)
    requires
        joinable(models(arrays@)),
        contents(arrays@[0]).data_type.shape == (Shape::Bytes { large }),
        extent_total(models(arrays@)) <= usize::MAX,
    ensures
        built_type(r) == contents(arrays@[0]).data_type,
        built(r) == Seq::<ArrayModel>::empty(),
        made_for(r) == (
            if_ample(total(models(arrays@)) as int),
            if_ample(extent_total(models(arrays@))),
        ),
{
    let ghost ms = models(arrays@);
    assert forall|i: int| 0 <= i < arrays@.len() implies contents(
        #[trigger] arrays@[i],
    ).data_type.shape == (Shape::Bytes { large }) by {
        assert(ms[i].data_type == ms[0].data_type);
    }
    let (items, bytes) = binary_totals(arrays, large);
    ColumnBuilder::bytes(&arrays[0], limited(items), limited(bytes))
}

/// Concatenates arrays of fixed-width numbers, dates or times.
pub(crate) fn concat_primitives(arrays: &[AnyArray], kind: Primitive) -> (r: AnyArray)
    requires
        joinable(models(arrays@)),
        contents(arrays@[0]).data_type.shape == Shape::Primitive(kind),
    ensures
        concatenates(models(arrays@), contents(r)),
{
    let ghost ms = models(arrays@);
    assert(ms[0] == contents(arrays@[0]));
    let mut builder = start_column(arrays);
    let mut i: usize = 0;
    assert(ms.take(0) =~= Seq::empty());
    while i < arrays.len()
        invariant
            0 <= i <= arrays@.len(),
            ms == models(arrays@),
            joinable(ms),
            ms[0].data_type.shape == Shape::Primitive(kind),
            built(builder) == ms.take(i as int),
            built_type(builder) == ms[0].data_type,
        decreases arrays@.len() - i,
    {
        proof {
            lemma_accepts(ms, i as int);
            assert(ms[i as int] == contents(arrays@[i as int]));
        }
        builder.append_primitive(&arrays[i], kind);
        i += 1;
    }
    assert(ms.take(i as int) =~= ms);
    builder.finish()
}

/// Concatenates boolean arrays.
pub(crate) fn concat_boolean(arrays: &[AnyArray]) -> (r: AnyArray)
    requires
        joinable(models(arrays@)),
        contents(arrays@[0]).data_type.shape is Boolean,
    ensures
        concatenates(models(arrays@), contents(r)),
        contents(r).offset == 0,
{
    let ghost ms = models(arrays@);
    assert(ms[0] == contents(arrays@[0]));
    let mut builder = start_column(arrays);
    let mut i: usize = 0;
    assert(ms.take(0) =~= Seq::empty());
    while i < arrays.len()
        invariant
            0 <= i <= arrays@.len(),
            ms == models(arrays@),
            joinable(ms),
            ms[0].data_type.shape is Boolean,
            built(builder) == ms.take(i as int),
            built_type(builder) == ms[0].data_type,
        decreases arrays@.len() - i,
    {
        proof {
            lemma_accepts(ms, i as int);
            assert(ms[i as int] == contents(arrays@[i as int]));
        }
        builder.append_boolean(&arrays[i]);
        i += 1;
    }
    assert(ms.take(i as int) =~= ms);
    builder.finish()
}

/// Concatenates arrays of strings or byte strings, with room made beforehand for all their bytes.
pub(crate) fn concat_bytes(arrays: &[AnyArray], large: bool) -> (r: AnyArray)
    requires
        joinable(models(arrays@)),
        contents(arrays@[0]).data_type.shape == (Shape::Bytes { large }),
        bytes_fit(large, models(arrays@)),
    ensures
        concatenates(models(arrays@), contents(r)),
        contents(r).offsets[0] == 0,
        contents(r).offsets.last() == extent_total(models(arrays@)),
{
    let ghost ms = models(arrays@);
    assert(ms[0] == contents(arrays@[0]));
    assert forall|i: int| 0 <= i < arrays@.len() implies contents(
        #[trigger] arrays@[i],
    ).data_type.shape == (Shape::Bytes { large }) by {
        assert(ms[i].data_type == ms[0].data_type);
    }
    let mut builder = start_bytes(arrays, large);
    let mut i: usize = 0;
    assert(ms.take(0) =~= Seq::empty());
    while i < arrays.len()
        invariant
            0 <= i <= arrays@.len(),
            ms == models(arrays@),
            joinable(ms),
            ms[0].data_type.shape == (Shape::Bytes { large }),
            bytes_fit(large, ms),
            built(builder) == ms.take(i as int),
            built_type(builder) == ms[0].data_type,
        decreases arrays@.len() - i,
    {
        proof {
            lemma_accepts(ms, i as int);
            assert(ms[i as int] == contents(arrays@[i as int]));
        }
        builder.append_bytes(&arrays[i]);
        i += 1;
    }
    assert(ms.take(i as int) =~= ms);
    builder.finish()
}

/// Concatenates arrays of string views or byte views.
pub(crate) fn concat_byte_view(arrays: &[AnyArray]) -> (r: AnyArray)
    requires
        joinable(models(arrays@)),
        contents(arrays@[0]).data_type.shape is View,
        buffers_total(models(arrays@)) <= u32::MAX,
    ensures
        concatenates(models(arrays@), contents(r)),
{
    let ghost ms = models(arrays@);
    assert(ms[0] == contents(arrays@[0]));
    let mut builder = start_column(arrays);
    let mut i: usize = 0;
    assert(ms.take(0) =~= Seq::empty());
    while i < arrays.len()
        invariant
            0 <= i <= arrays@.len(),
            ms == models(arrays@),
            joinable(ms),
            ms[0].data_type.shape is View,
            buffers_total(ms) <= u32::MAX,
            built(builder) == ms.take(i as int),
            built_type(builder) == ms[0].data_type,
        decreases arrays@.len() - i,
    {
        proof {
            lemma_accepts(ms, i as int);
            assert(ms[i as int] == contents(arrays@[i as int]));
        }
        builder.append_views(&arrays[i]);
        i += 1;
    }
    assert(ms.take(i as int) =~= ms);
    builder.finish()
}

/// Concatenates arrays by copying them whole, which concatenates dictionaries naively.
pub(crate) fn concat_fallback(arrays: &[AnyArray], capacity: Capacities) -> (r: AnyArray)
    requires
        joinable(models(arrays@)),
        hint_fits(hint(capacity), contents(arrays@[0]).data_type),
        spacious(hint(capacity), contents(arrays@[0]).data_type),
        sources_fit(contents(arrays@[0]).data_type, models(arrays@)),
        copies_fit(contents(arrays@[0]).data_type, models(arrays@)),
    ensures
        concatenates(models(arrays@), contents(r)),
        contents(r).data_type.shape is Dictionary ==> stacked(models(arrays@), contents(r)),
        no_new_nulls(models(arrays@), contents(r)),
{
    let ghost ms = models(arrays@);
    assert(ms[0] == contents(arrays@[0]));
    let mut data: Vec<ArrayData> = Vec::with_capacity(arrays.len());
    let mut i: usize = 0;
    while i < arrays.len()
        invariant
            0 <= i <= arrays@.len(),
            data@.len() == i,
            forall|k: int|
                0 <= k < i ==> data_contents(#[trigger] data@[k]) == contents(arrays@[k]),
        decreases arrays@.len() - i,
    {
        data.push(arrays[i].data());
        i += 1;
    }
    let mut sources: Vec<&ArrayData> = Vec::with_capacity(data.len());
    let mut k: usize = 0;
    while k < data.len()
        invariant
            0 <= k <= data@.len(),
            sources@.len() == k,
            forall|q: int| 0 <= q < k ==> *#[trigger] sources@[q] == data@[q],
        decreases data@.len() - k,
    {
        sources.push(&data[k]);
        k += 1;
    }
    assert forall|q: int| 0 <= q < ms.len() implies data_contents(*#[trigger] sources@[q])
        == ms[q] by {
        assert(*sources@[q] == data@[q]);
        assert(data_contents(data@[q]) == contents(arrays@[q]));
    }
    assert(data_models(sources@) =~= ms);
    assert forall|q: int| 0 <= q < ms.len() implies data_contents(
        *#[trigger] sources@[q],
    ).data_type == ms[0].data_type by {
        assert(ms[q].data_type == ms[0].data_type);
    }
    let mut copy = start_copy(sources, capacity);
    let mut n: usize = 0;
    while n < arrays.len()
        invariant
            0 <= n <= arrays@.len(),
            ms == models(arrays@),
            ms.len() > 0,
            copy_sources(copy) == ms,
            copied(copy) == n,
            copies_fit(ms[0].data_type, ms),
        decreases arrays@.len() - n,
    {
        let len: usize = arrays[n].len();
        assert(ms[n as int] == contents(arrays@[n as int]));
        copy_next(&mut copy, n, 0, len);
        n += 1;
    }
    finish_copy(copy)
}

/// The validity bits of the arrays, one array after the other, if any slot is null.
pub(crate) fn concat_nulls(arrays: &[AnyArray], len: usize) -> (r: Option<NullBuffer>)
    requires
        all_valid(models(arrays@)),
        len == total(models(arrays@)),
    ensures
        option_bits(r) == joined_nulls(models(arrays@)),
        full_bits(r, len as nat) == joined_validity(models(arrays@)),
        r matches Some(n) ==> null_bits(n).len() == len,
{
    let ghost ms = models(arrays@);
    let mut has_nulls: bool = false;
    let mut i: usize = 0;
    while i < arrays.len()
        invariant
            0 <= i <= arrays@.len(),
            ms == models(arrays@),
            has_nulls == exists|k: int| 0 <= k < i && (#[trigger] ms[k]).nulls is Some,
        decreases arrays@.len() - i,
    {
        let count: usize = arrays[i].null_count();
        assert(ms[i as int] == contents(arrays@[i as int]));
        has_nulls = has_nulls || count != 0;
        i += 1;
    }
    proof {
        lemma_joined_nulls(ms);
        lemma_joined_len(ms);
    }
    if !has_nulls {
        proof {
            let bits = joined_validity(ms);
            assert forall|k: int| 0 <= k < bits.len() implies bits[k] by {
                if !bits[k] {
                    assert(bits.contains(false));
                }
            }
            assert(full_bits(None, len as nat) =~= bits);
        }
        return None;
    }
    let mut builder = BooleanBufferBuilder::new(len);
    let mut k: usize = 0;
    assert(ms.take(0) =~= Seq::empty());
    while k < arrays.len()
        invariant
            0 <= k <= arrays@.len(),
            ms == models(arrays@),
            all_valid(ms),
            total(ms) == len,
            builder_bits(builder) == joined_validity(ms.take(k as int)),
        decreases arrays@.len() - k,
    {
        let ghost front = ms.take(k as int);
        proof {
            assert(ms[k as int] == contents(arrays@[k as int]));
            assert(valid(ms[k as int]));
            lemma_take_step(ms, k as int);
            lemma_total_prefix(ms, k + 1);
            assert(all_valid(front)) by {
                assert forall|q: int| 0 <= q < front.len() implies valid(#[trigger] front[q]) by {
                    assert(front[q] == ms[q]);
                }
            }
            lemma_joined_len(front);
        }
        match arrays[k].nulls() {
            Some(n) => builder.append_buffer(n.inner()),
            None => {
                let n: usize = arrays[k].len();
                builder.append_n(n, true);
                assert(Seq::new(n as nat, |q: int| true) =~= validity(ms[k as int]));
            },
        }
        k += 1;
    }
    assert(ms.take(k as int) =~= ms);
    Some(NullBuffer::new(builder.finish()))
}

} // verus!

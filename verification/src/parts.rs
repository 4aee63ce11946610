//! The parts of arrays that a concatenation uses: the items that lists span, the values of runs, the
//! keys of dictionaries, the slots that unions refer to.
use vstd::prelude::*;

use crate::joins::{
    all_valid, gaps, joined_gaps, lemma_list_rows, lemma_run_bounds, lemma_run_is, lemma_take_step,
    listlike, one_type,
};
use crate::limits::{as_ints, first_run, run_count, run_models, run_values, used, used_models};
use crate::model::{child_type, integer_max, rising, run_of, valid, ArrayModel, Primitive, Shape};
use crate::outside::{contents, keys_read, models, AnyArray};

verus! {

/// The offsets of an array of byte strings, lists or maps, which are 64 bits wide where `large`.
pub(crate) fn offsets_of(array: &AnyArray, large: bool) -> (r: Vec<i64>)
    requires
        contents(*array).data_type.shape == (Shape::Bytes { large }) || contents(
            *array,
        ).data_type.shape == (Shape::List { large }) || (contents(
            *array,
        ).data_type.shape is MapEntries && !large),
    ensures
        r@.len() == contents(*array).offsets.len(),
        forall|i: int| 0 <= i < r@.len() ==> #[trigger] r@[i] == contents(*array).offsets[i],
{
    if large {
        return array.offsets_64();
    }
    let narrow = array.offsets_32();
    let mut out: Vec<i64> = Vec::with_capacity(narrow.len());
    let mut i: usize = 0;
    while i < narrow.len()
        invariant
            0 <= i <= narrow@.len(),
            out@.len() == i,
            forall|k: int| 0 <= k < i ==> #[trigger] out@[k] == narrow@[k],
        decreases narrow@.len() - i,
    {
        out.push(narrow[i] as i64);
        i += 1;
    }
    out
}

/// Whether arrays are lists of one offset width, or maps.
pub open spec fn lists_of(arrays: Seq<AnyArray>, large: bool) -> bool {
    forall|i: int|
        0 <= i < arrays.len() ==> contents(#[trigger] arrays[i]).data_type.shape == (Shape::List {
            large,
        }) || (contents(arrays[i]).data_type.shape is MapEntries && !large)
}

/// The items that each list or map array spans, and the lengths of all lists.
pub(crate) fn list_parts(arrays: &[AnyArray], large: bool) -> (r: (Vec<AnyArray>, Vec<usize>))
    requires
        lists_of(arrays@, large),
        all_valid(models(arrays@)),
    ensures
        models(r.0@) == used_models(models(arrays@)),
        as_ints(r.1@) == joined_gaps(models(arrays@)),
{
    let ghost ms = models(arrays@);
    let mut values: Vec<AnyArray> = Vec::with_capacity(arrays.len());
    let mut lengths: Vec<usize> = Vec::new();
    let mut i: usize = 0;
    assert(ms.take(0) =~= Seq::empty());
    assert(as_ints(lengths@) =~= joined_gaps(ms.take(0)));
    while i < arrays.len()
        invariant
            0 <= i <= arrays@.len(),
            ms == models(arrays@),
            lists_of(arrays@, large),
            all_valid(ms),
            values@.len() == i,
            forall|k: int| 0 <= k < i ==> contents(#[trigger] values@[k]) == used(ms[k]),
            as_ints(lengths@) == joined_gaps(ms.take(i as int)),
        decreases arrays@.len() - i,
    {
        let array = &arrays[i];
        let ghost m = ms[i as int];
        let len: usize = array.len();
        proof {
            assert(m == contents(arrays@[i as int]));
            assert(valid(m));
            lemma_list_rows(m);
            lemma_take_step(ms, i as int);
            assert(m.offsets[0] <= m.offsets[m.len as int]);
        }
        let offsets = offsets_of(array, large);
        let items = array.child(0);
        let items_len: usize = items.len();
        let first: i64 = offsets[0];
        let last: i64 = offsets[len];
        assert(first == m.offsets[0]);
        assert(last == m.offsets[m.len as int]);
        let ghost before = lengths@;
        let mut k: usize = 0;
        while k < len
            invariant
                0 <= k <= len,
                m == contents(*array),
                valid(m),
                listlike(m),
                len == m.len,
                offsets@.len() == len + 1,
                forall|q: int| 0 <= q < offsets@.len() ==> #[trigger] offsets@[q] == m.offsets[q],
                m.children[0].len <= usize::MAX,
                lengths@.len() == before.len() + k,
                forall|q: int| 0 <= q < before.len() ==> #[trigger] lengths@[q] == before[q],
                forall|q: int| 0 <= q < k ==> lengths@[before.len() + q] == #[trigger] gaps(m)[q],
            decreases len - k,
        {
            proof {
                assert(offsets@[k as int] == m.offsets[k as int]);
                assert(offsets@[k + 1] == m.offsets[k + 1]);
                assert(m.offsets[k as int] <= m.offsets[k + 1]);
                assert(m.offsets[k + 1] <= m.offsets[m.len as int]);
                assert(0 <= m.offsets[k as int]);
            }
            let ghost here = lengths@;
            lengths.push((offsets[k + 1] - offsets[k]) as usize);
            assert forall|q: int| 0 <= q < k + 1 implies lengths@[before.len() + q]
                == #[trigger] gaps(m)[q] by {
                if q < k {
                    assert(here[before.len() + q] == gaps(m)[q]);
                }
            }
            k += 1;
        }
        assert(as_ints(lengths@) =~= as_ints(before) + gaps(m)) by {
            assert forall|q: int| 0 <= q < lengths@.len() implies as_ints(lengths@)[q] == (as_ints(
                before,
            ) + gaps(m))[q] by {
                if q >= before.len() {
                    assert(lengths@[before.len() + (q - before.len())] == gaps(m)[q
                        - before.len()]);
                }
            }
        }
        values.push(items.slice(first as usize, (last - first) as usize));
        i += 1;
    }
    assert(ms.take(i as int) =~= ms);
    assert(models(values@) =~= used_models(ms));
    (values, lengths)
}

/// The items that list or map arrays of one type span are arrays of one type.
pub proof fn lemma_used_type(ms: Seq<ArrayModel>)
    requires
        all_valid(ms),
        one_type(ms),
        ms.len() > 0,
        listlike(ms[0]),
    ensures
        one_type(used_models(ms)),
        all_valid(used_models(ms)),
        used_models(ms)[0].data_type == ms[0].data_type.fields[0].data_type,
        forall|i: int| 0 <= i < ms.len() ==> listlike(#[trigger] ms[i]),
{
    assert forall|i: int| 0 <= i < ms.len() implies listlike(#[trigger] ms[i]) && valid(
        used_models(ms)[i],
    ) && used_models(ms)[i].data_type == ms[0].data_type.fields[0].data_type by {
        assert(valid(ms[i]));
        assert(ms[i].data_type == ms[0].data_type);
        lemma_list_rows(ms[i]);
    }
    assert forall|i: int| 0 <= i < ms.len() implies valid(#[trigger] used_models(ms)[i]) && used_models(
        ms,
    )[i].data_type == ms[0].data_type.fields[0].data_type by {
        assert(listlike(ms[i]));
    }
}

/// The run that a row lies in.
pub(crate) fn find_run(ends: &Vec<i64>, pos: i64, Ghost(ints): Ghost<Seq<int>>) -> (r: usize)
    requires
        ends@.len() == ints.len(),
        forall|i: int| 0 <= i < ends@.len() ==> #[trigger] ends@[i] == ints[i],
        rising(ints),
        ints.len() > 0,
        pos < ints.last(),
    ensures
        r == run_of(ints, pos as int),
        r < ints.len(),
{
    let mut low: usize = 0;
    let mut high: usize = ends.len() - 1;
    while low < high
        invariant
            0 <= low <= high < ends@.len(),
            ends@.len() == ints.len(),
            forall|i: int| 0 <= i < ends@.len() ==> #[trigger] ends@[i] == ints[i],
            rising(ints),
            pos < ints[high as int],
            low > 0 ==> ints[low - 1] <= pos,
        decreases high - low,
    {
        let mid: usize = low + (high - low) / 2;
        assert(ends@[mid as int] == ints[mid as int]);
        if ends[mid] <= pos {
            low = mid + 1;
        } else {
            high = mid;
        }
    }
    proof {
        lemma_run_is(ints, pos as int, low as int);
    }
    low
}

/// Whether arrays are run-end encoded.
pub open spec fn runs_of(arrays: Seq<AnyArray>) -> bool {
    forall|i: int| 0 <= i < arrays.len() ==> contents(#[trigger] arrays[i]).data_type.shape is Runs
}

/// The bounds of the runs that the rows of an array lie in: the first run, and their number.
pub(crate) fn run_bounds(array: &AnyArray, ends: &Vec<i64>) -> (r: (usize, usize))
    requires
        valid(contents(*array)),
        contents(*array).data_type.shape is Runs,
        contents(*array).len > 0,
        ends@.len() == contents(*array).ints.len(),
        forall|i: int|
            0 <= i < ends@.len() ==> #[trigger] ends@[i] == contents(*array).ints[i],
    ensures
        r.0 == first_run(contents(*array)),
        r.1 == run_count(contents(*array)),
{
    let ghost m = contents(*array);
    let len: usize = array.len();
    let offset: usize = array.run_offset();
    proof {
        lemma_run_bounds(m);
        assert(ends@[m.ints.len() - 1] == m.ints.last());
    }
    let first: usize = find_run(ends, offset as i64, Ghost(m.ints));
    let last: usize = find_run(ends, offset as i64 + (len - 1) as i64, Ghost(m.ints));
    let runs: usize = ends.len();
    assert(first <= last < runs);
    (first, last - first + 1)
}

/// The values of the runs that the rows of each array lie in, for arrays that have rows.
pub(crate) fn run_parts(arrays: &[AnyArray]) -> (r: Vec<AnyArray>)
    requires
        runs_of(arrays@),
        all_valid(models(arrays@)),
    ensures
        models(r@) == run_models(models(arrays@)),
{
    let ghost ms = models(arrays@);
    let mut out: Vec<AnyArray> = Vec::new();
    let mut i: usize = 0;
    assert(ms.take(0) =~= Seq::empty());
    assert(models(out@) =~= run_models(ms.take(0)));
    while i < arrays.len()
        invariant
            0 <= i <= arrays@.len(),
            ms == models(arrays@),
            runs_of(arrays@),
            all_valid(ms),
            models(out@) == run_models(ms.take(i as int)),
        decreases arrays@.len() - i,
    {
        let array = &arrays[i];
        let ghost m = ms[i as int];
        proof {
            assert(m == contents(arrays@[i as int]));
            assert(valid(m));
            lemma_take_step(ms, i as int);
        }
        if array.len() > 0 {
            proof {
                lemma_run_bounds(m);
            }
            let ends = array.run_ends();
            let (first, count) = run_bounds(array, &ends);
            let ghost before = out@;
            out.push(array.run_values().slice(first, count));
            assert(models(out@) =~= models(before).push(run_values(m)));
        }
        i += 1;
    }
    assert(ms.take(i as int) =~= ms);
    out
}

/// The run values of arrays of one type are arrays of one type.
pub proof fn lemma_run_models(ms: Seq<ArrayModel>)
    requires
        all_valid(ms),
        one_type(ms),
        ms.len() > 0 ==> ms[0].data_type.shape is Runs,
    ensures
        all_valid(run_models(ms)),
        one_type(run_models(ms)),
        run_models(ms).len() > 0 ==> run_models(ms)[0].data_type
            == ms[0].data_type.fields[1].data_type,
        run_models(ms).len() <= ms.len(),
    decreases ms.len(),
{
    if ms.len() > 0 {
        let front = ms.drop_last();
        let last = ms[ms.len() - 1];
        let t = ms[0].data_type.fields[1].data_type;
        assert(valid(last));
        assert(last.data_type == ms[0].data_type);
        assert forall|i: int| 0 <= i < front.len() implies valid(#[trigger] front[i])
            && front[i].data_type == ms[0].data_type by {
            assert(front[i] == ms[i]);
        }
        lemma_run_models(front);
        if last.len > 0 {
            lemma_run_bounds(last);
            assert(run_values(last).data_type == last.children[0].data_type);
            assert(last.children[0].data_type == child_type(last.data_type, 0));
        }
        let all = run_models(ms);
        assert forall|i: int| 0 <= i < all.len() implies valid(#[trigger] all[i])
            && all[i].data_type == t by {
            if i < run_models(front).len() {
                assert(all[i] == run_models(front)[i]);
                assert(run_models(front)[i].data_type == run_models(front)[0].data_type);
            }
        }
    }
}

/// The keys of a dictionary array.
pub(crate) fn keys_of(array: &AnyArray, kind: Primitive) -> (r: Vec<i128>)
    requires
        contents(*array).data_type.shape is Dictionary,
        contents(*array).data_type.fields[0].data_type.shape == Shape::Primitive(kind),
        integer_max(kind) > 0,
    ensures
        keys_read(*array, r@),
{
    match kind {
        Primitive::Int8 => array.signed_keys(kind),
        Primitive::Int16 => array.signed_keys(kind),
        Primitive::Int32 => array.signed_keys(kind),
        Primitive::Int64 => array.signed_keys(kind),
        _ => array.unsigned_keys(kind),
    }
}

} // verus!

//! What a slice of an array holds.
use vstd::prelude::*;

use crate::model::{
    child_row, holds_null, items, layout_valid, null_at, row, rows, run_of, sliced, sliced_children,
    valid, validity, ArrayModel, Shape,
};

verus! {

/// The validity of a slice is that part of the validity.
pub proof fn lemma_sliced_validity(m: ArrayModel, start: int, len: int)
    requires
        valid(m),
        0 <= start,
        0 <= len,
        start + len <= m.len,
    ensures
        validity(sliced(m, start, len)) == validity(m).subrange(start, start + len),
        forall|i: int|
            0 <= i < len ==> null_at(sliced(m, start, len), i) == null_at(m, start + i),
{
    let s = sliced(m, start, len);
    let part = validity(m).subrange(start, start + len);
    if m.nulls is Some {
        if !part.contains(false) {
            assert forall|i: int| 0 <= i < len implies part[i] by {
                if !part[i] {
                    assert(part.contains(false));
                }
            }
        }
    }
    assert(validity(s) =~= part);
    assert forall|i: int| 0 <= i < len implies null_at(s, i) == null_at(m, start + i) by {
        assert(part[i] == validity(m)[start + i]);
        assert(validity(s)[i] == part[i]);
    }
}

/// Slot `i` of a slice means what slot `start + i` of the array means.
pub proof fn lemma_sliced_row(m: ArrayModel, start: int, len: int, i: int)
    requires
        valid(m),
        0 <= start,
        0 <= i < len,
        start + len <= m.len,
    ensures
        row(sliced(m, start, len), i) == row(m, start + i),
    decreases m,
{
    let s = sliced(m, start, len);
    let at = start + i;
    lemma_sliced_validity(m, start, len);
    assert(null_at(s, i) == null_at(m, at));
    assert(layout_valid(m));
    if !null_at(m, at) {
        match m.data_type.shape {
            Shape::Null => {},
            Shape::Boolean => {},
            Shape::Primitive(_) => {},
            Shape::Bytes { .. } => {},
            Shape::View => {},
            Shape::FixedBinary(_) => {},
            Shape::Unused => {},
            Shape::List { .. } => {
                assert(s.offsets[i] == m.offsets[at]);
                assert(s.offsets[i + 1] == m.offsets[at + 1]);
                assert(items(s, m.offsets[at], m.offsets[at + 1]) == items(
                    m,
                    m.offsets[at],
                    m.offsets[at + 1],
                ));
            },
            Shape::MapEntries => {
                assert(s.offsets[i] == m.offsets[at]);
                assert(s.offsets[i + 1] == m.offsets[at + 1]);
                assert(items(s, m.offsets[at], m.offsets[at + 1]) == items(
                    m,
                    m.offsets[at],
                    m.offsets[at + 1],
                ));
            },
            Shape::ListView => {
                assert(s.offsets[i] == m.offsets[at]);
                assert(s.ints[i] == m.ints[at]);
                assert(items(s, m.offsets[at], m.offsets[at] + m.ints[at]) == items(
                    m,
                    m.offsets[at],
                    m.offsets[at] + m.ints[at],
                ));
            },
            Shape::FixedList(size) => {
                let child = m.children[0];
                assert(valid(child));
                assert(s.children == sliced_children(m, start * size, len * size));
                assert(s.children[0] == sliced(child, start * size, len * size));
                assert((start + len) * size <= m.len * size) by (nonlinear_arith)
                    requires
                        start + len <= m.len,
                        size >= 0,
                ;
                assert((start + len) * size == start * size + len * size) by (nonlinear_arith);
                assert(0 <= start * size) by (nonlinear_arith)
                    requires
                        start >= 0,
                        size >= 0,
                ;
                assert((i + 1) * size == i * size + size) by (nonlinear_arith);
                assert((at + 1) * size == at * size + size) by (nonlinear_arith);
                assert(at * size == start * size + i * size) by (nonlinear_arith)
                    requires
                        at == start + i,
                ;
                assert(0 <= i * size) by (nonlinear_arith)
                    requires
                        i >= 0,
                        size >= 0,
                ;
                assert((i + 1) * size <= len * size) by (nonlinear_arith)
                    requires
                        i < len,
                        size >= 0,
                ;
                let here = Seq::new(size as nat, |k: int| row(s.children[0], i * size + k));
                let there = Seq::new(size as nat, |k: int| row(child, at * size + k));
                assert forall|k: int| 0 <= k < size implies #[trigger] here[k] == there[k] by {
                    lemma_sliced_row(child, start * size, len * size, i * size + k);
                }
                assert(here =~= there);
                assert(items(s, i * size, (i + 1) * size)->List_0 =~= here);
                assert(items(m, at * size, (at + 1) * size)->List_0 =~= there);
            },
            Shape::Struct => {
                assert(s.children == sliced_children(m, start, len));
                assert forall|j: int| 0 <= j < m.children.len() implies row(s.children[j], i)
                    == row(m.children[j], at) by {
                    assert(valid(m.children[j]));
                    assert(s.children[j] == sliced(m.children[j], start, len));
                    lemma_sliced_row(m.children[j], start, len, i);
                }
                assert(row(s, i)->Record_0 =~= row(m, at)->Record_0);
            },
            Shape::Dictionary => {
                assert(s.ints[i] == m.ints[at]);
                assert(child_row(s, 0, m.ints[at]) == child_row(m, 0, m.ints[at]));
            },
            Shape::Runs => {
                assert(s.offset + i == m.offset + at);
                let k = run_of(m.ints, m.offset + at);
                assert(child_row(s, 0, k) == child_row(m, 0, k));
            },
            Shape::Union { dense } => {
                let j = m.ints[at];
                assert(s.ints[i] == j);
                assert(valid(m.children[j]));
                if dense {
                    assert(s.offsets[i] == m.offsets[at]);
                    assert(child_row(s, j, m.offsets[at]) == child_row(m, j, m.offsets[at]));
                } else {
                    assert(s.children == sliced_children(m, start, len));
                    assert(s.children[j] == sliced(m.children[j], start, len));
                    lemma_sliced_row(m.children[j], start, len, i);
                    assert(child_row(s, j, i) == child_row(m, j, at));
                }
            },
        }
    }
}

/// A slice of a valid array is valid.
pub proof fn lemma_sliced_valid(m: ArrayModel, start: int, len: int)
    requires
        valid(m),
        0 <= start,
        0 <= len,
        start + len <= m.len,
    ensures
        valid(sliced(m, start, len)),
        sliced(m, start, len).data_type == m.data_type,
        sliced(m, start, len).len == len,
    decreases m,
{
    let s = sliced(m, start, len);
    assert(layout_valid(m));
    lemma_sliced_validity(m, start, len);
    match m.data_type.shape {
        Shape::Struct => {
            assert forall|j: int| 0 <= j < s.children.len() implies {
                &&& valid(#[trigger] s.children[j])
                &&& s.children[j].len == len
                &&& s.children[j].data_type == m.children[j].data_type
            } by {
                assert(valid(m.children[j]));
                assert(s.children[j] == sliced(m.children[j], start, len));
                lemma_sliced_valid(m.children[j], start, len);
            }
        },
        Shape::FixedList(size) => {
            assert((start + len) * size <= m.len * size) by (nonlinear_arith)
                requires
                    start + len <= m.len,
                    size >= 0,
            ;
            assert((start + len) * size == start * size + len * size) by (nonlinear_arith);
            assert(0 <= start * size && 0 <= len * size) by (nonlinear_arith)
                requires
                    start >= 0,
                    len >= 0,
                    size >= 0,
            ;
            assert(valid(m.children[0]));
            assert(s.children[0] == sliced(m.children[0], start * size, len * size));
            lemma_sliced_valid(m.children[0], start * size, len * size);
        },
        Shape::Union { dense } => {
            if !dense {
                assert forall|j: int| 0 <= j < s.children.len() implies {
                    &&& valid(#[trigger] s.children[j])
                    &&& s.children[j].len == len
                    &&& s.children[j].data_type == m.children[j].data_type
                } by {
                    assert(valid(m.children[j]));
                    assert(s.children[j] == sliced(m.children[j], start, len));
                    lemma_sliced_valid(m.children[j], start, len);
                }
            } else {
                assert forall|i: int| 0 <= i < len implies 0 <= #[trigger] s.offsets[i]
                    < s.children[s.ints[i]].len by {
                    assert(s.offsets[i] == m.offsets[start + i]);
                    assert(s.ints[i] == m.ints[start + i]);
                }
            }
        },
        Shape::Runs => {
            assert(s.ints == m.ints);
            assert(s.children == m.children);
        },
        Shape::Dictionary => {
            assert forall|i: int| 0 <= i < len && !null_at(s, i) implies 0 <= #[trigger] s.ints[i]
                < s.children[0].len by {
                assert(s.ints[i] == m.ints[start + i]);
            }
        },
        Shape::List { .. } => {
            assert(s.offsets.last() == m.offsets[start + len]);
            assert(m.offsets[start + len] <= m.offsets[m.len as int]);
        },
        Shape::MapEntries => {
            assert(s.offsets.last() == m.offsets[start + len]);
            assert(m.offsets[start + len] <= m.offsets[m.len as int]);
        },
        _ => {},
    }
}

/// The rows of a slice are that part of the rows.
pub proof fn slice_keeps_rows(m: ArrayModel, start: int, len: int)
    requires
        valid(m),
        0 <= start,
        0 <= len,
        start + len <= m.len,
    ensures
        valid(sliced(m, start, len)),
        rows(sliced(m, start, len)) == rows(m).subrange(start, start + len),
{
    lemma_sliced_valid(m, start, len);
    assert forall|i: int| 0 <= i < len implies rows(sliced(m, start, len))[i] == rows(
        m,
    ).subrange(start, start + len)[i] by {
        lemma_sliced_row(m, start, len, i);
    }
    assert(rows(sliced(m, start, len)) =~= rows(m).subrange(start, start + len));
}

/// The slice of an array that leaves nothing out has the array's type, length, nulls and rows.
pub proof fn lemma_whole_slice(m: ArrayModel)
    requires
        valid(m),
    ensures
        valid(sliced(m, 0, m.len as int)),
        sliced(m, 0, m.len as int).data_type == m.data_type,
        sliced(m, 0, m.len as int).len == m.len,
        sliced(m, 0, m.len as int).nulls == m.nulls,
        rows(sliced(m, 0, m.len as int)) == rows(m),
{
    slice_keeps_rows(m, 0, m.len as int);
    assert(rows(m).subrange(0, m.len as int) =~= rows(m));
    if m.nulls is Some {
        let bits = m.nulls->Some_0;
        assert(bits.subrange(0, m.len as int) =~= bits);
    }
}

/// A slice holds no null that the array does not hold.
pub proof fn lemma_sliced_holds(m: ArrayModel, start: int, len: int)
    requires
        valid(m),
        0 <= start,
        0 <= len,
        start + len <= m.len,
    ensures
        holds_null(sliced(m, start, len)) ==> holds_null(m),
    decreases m,
{
    let s = sliced(m, start, len);
    if holds_null(s) {
        match m.data_type.shape {
            Shape::Union { dense } => {
                if !dense {
                    let j = choose|j: int|
                        0 <= j < s.children.len() && holds_null(#[trigger] s.children[j]);
                    assert(s.children[j] == sliced(m.children[j], start, len));
                    assert(valid(m.children[j]));
                    lemma_sliced_holds(m.children[j], start, len);
                    assert(holds_null(m.children[j]));
                }
            },
            _ => {},
        }
    }
}

/// The slice of a slice that leaves nothing out is that slice.
pub proof fn lemma_slice_again(m: ArrayModel, start: int, len: int)
    requires
        valid(m),
        0 <= start,
        0 <= len,
        start + len <= m.len,
    ensures
        sliced(sliced(m, start, len), 0, len) == sliced(m, start, len),
    decreases m,
{
    let s = sliced(m, start, len);
    let again = sliced(s, 0, len);
    lemma_sliced_valid(m, start, len);
    if let Some(bits) = s.nulls {
        assert(bits.subrange(0, len) =~= bits);
    }
    match m.data_type.shape {
        Shape::Struct => {
            assert forall|j: int| 0 <= j < s.children.len() implies again.children[j]
                == #[trigger] s.children[j] by {
                assert(valid(m.children[j]));
                lemma_slice_again(m.children[j], start, len);
            }
            assert(again.children =~= s.children);
        },
        Shape::FixedList(size) => {
            let n = size as int;
            assert(0 <= start * n && 0 <= len * n && start * n + len * n <= m.len * n && 0 * n == 0)
                by (nonlinear_arith)
                requires
                    0 <= start,
                    0 <= len,
                    start + len <= m.len,
                    n >= 0,
            ;
            assert(valid(m.children[0]));
            lemma_slice_again(m.children[0], start * n, len * n);
            assert(again.children =~= s.children);
        },
        Shape::Union { dense } => {
            if !dense {
                assert forall|j: int| 0 <= j < s.children.len() implies again.children[j]
                    == #[trigger] s.children[j] by {
                    assert(valid(m.children[j]));
                    lemma_slice_again(m.children[j], start, len);
                }
                assert(again.children =~= s.children);
            }
        },
        _ => {},
    }
    assert(again =~= s);
}

} // verus!

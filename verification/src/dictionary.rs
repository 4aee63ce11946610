//! Concatenation of dictionary arrays.
use arrow_schema::DataType;
use vstd::prelude::*;

use crate::capacity::{children, lemma_children, slots_hint, total_len};
use crate::checks::{can_be_copied, can_concat, check_bytes, checked_total};
use crate::concat::{concat, explained};
use crate::error::ConcatError;
use crate::joins::{
    alike, all_alike, all_valid, behind, dictionary_rows, kept, keys_follow, lemma_dictionary_rows,
    lemma_dictionary_rows_add, lemma_joined_at, lemma_joined_len, lemma_joined_nulls,
    lemma_joined_one, lemma_null_at, lemma_take_step, lemma_total_prefix, lemma_validity, one_type,
    stacked,
};
use crate::kernels::{concat_bytes, concat_fallback, concat_nulls, concat_primitives, joinable};
use crate::limits::{child_models, copies_fit, copyable, extent, extent_total, fits};
use crate::model::{
    concatenates, holds_null, index_max, integer_max, joined, joined_validity, no_new_nulls,
    null_at, row, rows, sliced, total, valid, validity, ArrayModel, Primitive, Shape, TypeModel,
    Value,
};
use crate::outside::{
    contents, full_bits, is_dictionary, keys_read, models, null_bits, option_bits,
    signed_dictionary, type_model, unsigned_dictionary, AnyArray,
};
use crate::parts::keys_of;
use crate::shapes::{index_kind, max_of, shape_of};
use crate::slices::{lemma_sliced_row, slice_keeps_rows};

verus! {

/// Whether the values of dictionaries of this type can be compared and merged.
pub open spec fn mergeable(t: TypeModel) -> bool {
    t.shape is Bytes || t.shape is Primitive
}

/// A value of a dictionary: its bytes, or none for a null.
pub type Entry = Option<Vec<u8>>;

/// What an entry means.
pub open spec fn entry_value(entry: Entry) -> Value {
    match entry {
        Some(bytes) => Value::Cell(bytes@),
        None => Value::Null,
    }
}

/// What entries mean.
pub open spec fn entry_values(entries: Seq<Entry>) -> Seq<Value> {
    Seq::new(entries.len(), |i: int| entry_value(entries[i]))
}

/// A number that depends on the bytes alone.
pub open spec fn bytes_hash(bytes: Seq<u8>) -> int
    decreases bytes.len(),
{
    if bytes.len() == 0 {
        1
    } else {
        (bytes_hash(bytes.drop_last()) * 31 + bytes.last()) % 0x1_0000_0000
    }
}

/// A number that depends on what an entry means alone.
pub open spec fn value_hash(value: Value) -> int {
    match value {
        Value::Cell(bytes) => bytes_hash(bytes),
        _ => 0,
    }
}

/// Computes [`value_hash`].
fn hash_entry(entry: &Entry) -> (r: u64)
    ensures
        r == value_hash(entry_value(*entry)),
        r < 0x1_0000_0000,
{
    match entry {
        None => 0,
        Some(bytes) => {
            let mut hash: u64 = 1;
            let mut i: usize = 0;
            assert(bytes@.take(0) =~= Seq::empty());
            while i < bytes.len()
                invariant
                    0 <= i <= bytes@.len(),
                    hash == bytes_hash(bytes@.take(i as int)),
                    hash < 0x1_0000_0000,
                decreases bytes@.len() - i,
            {
                proof {
                    lemma_take_step(bytes@, i as int);
                }
                hash = (hash * 31 + bytes[i] as u64) % 0x1_0000_0000;
                i += 1;
            }
            assert(bytes@.take(i as int) =~= bytes@);
            hash
        },
    }
}

/// Whether two entries mean the same.
fn same_entry(a: &Entry, b: &Entry) -> (r: bool)
    ensures
        r == (entry_value(*a) == entry_value(*b)),
{
    match (a, b) {
        (None, None) => true,
        (Some(x), Some(y)) => {
            if x.len() != y.len() {
                assert(x@.len() != y@.len());
                return false;
            }
            let mut i: usize = 0;
            while i < x.len()
                invariant
                    0 <= i <= x@.len(),
                    x@.len() == y@.len(),
                    entry_value(*a) == Value::Cell(x@),
                    entry_value(*b) == Value::Cell(y@),
                    forall|k: int| 0 <= k < i ==> #[trigger] x@[k] == y@[k],
                decreases x@.len() - i,
            {
                if x[i] != y[i] {
                    assert(x@ != y@);
                    return false;
                }
                i += 1;
            }
            assert(x@ =~= y@);
            true
        },
        _ => false,
    }
}

/// The most buckets that an [`Interner`] has.
pub const MAX_BUCKETS: usize = 65536;

/// Entries, each held once, and where they are found.
pub struct Interner {
    entries: Vec<Entry>,
    buckets: Vec<Vec<usize>>,
}

impl Interner {
    /// What the entries mean, in the order in which they came.
    pub closed spec fn view(&self) -> Seq<Value> {
        entry_values(self.entries@)
    }

    /// Whether no entry is held twice and each is found in the bucket of its hash.
    pub closed spec fn wf(&self) -> bool {
        &&& self@.no_duplicates()
        &&& self.buckets@.len() > 0
        &&& forall|b: int, k: int|
            0 <= b < self.buckets@.len() && 0 <= k < self.buckets@[b]@.len() ==> #[trigger] self.buckets@[b]@[k]
                < self.entries@.len()
        &&& forall|e: int|
            0 <= e < self.entries@.len() ==> self.buckets@[value_hash(
                #[trigger] entry_value(self.entries@[e]),
            ) % (self.buckets@.len() as int)]@.contains(e as usize)
    }

    /// An interner without entries, for about so many.
    pub fn new(expected: usize) -> (r: Interner)
        ensures
            r.wf(),
            r@ == Seq::<Value>::empty(),
    {
        let size: usize = if expected == 0 {
            1
        } else if expected > MAX_BUCKETS {
            MAX_BUCKETS
        } else {
            expected
        };
        let mut buckets: Vec<Vec<usize>> = Vec::with_capacity(size);
        let mut i: usize = 0;
        while i < size
            invariant
                0 <= i <= size,
                buckets@.len() == i,
                forall|b: int| 0 <= b < i ==> (#[trigger] buckets@[b])@.len() == 0,
            decreases size - i,
        {
            buckets.push(Vec::new());
            i += 1;
        }
        let r = Interner { entries: Vec::new(), buckets };
        assert(r@ =~= Seq::<Value>::empty());
        r
    }

    /// The number of entries.
    pub fn len(&self) -> (r: usize)
        ensures
            r == self@.len(),
    {
        self.entries.len()
    }

    /// Where an entry is held, if it is.
    pub fn find(&self, entry: &Entry) -> (r: Option<usize>)
        requires
            self.wf(),
        ensures
            r matches Some(i) ==> i < self@.len() && self@[i as int] == entry_value(*entry),
            r is None ==> !self@.contains(entry_value(*entry)),
    {
        let hash: u64 = hash_entry(entry);
        let at: usize = (hash % self.buckets.len() as u64) as usize;
        let bucket = &self.buckets[at];
        let mut k: usize = 0;
        while k < bucket.len()
            invariant
                0 <= k <= bucket@.len(),
                self.wf(),
                at < self.buckets@.len(),
                *bucket == self.buckets@[at as int],
                forall|q: int|
                    0 <= q < k ==> self@[#[trigger] bucket@[q] as int] != entry_value(*entry),
            decreases bucket@.len() - k,
        {
            let e: usize = bucket[k];
            assert(self.buckets@[at as int]@[k as int] < self.entries@.len());
            if same_entry(&self.entries[e], entry) {
                return Some(e);
            }
            k += 1;
        }
        let held: usize = self.entries.len();
        proof {
            if self@.contains(entry_value(*entry)) {
                let e = choose|e: int| 0 <= e < self@.len() && self@[e] == entry_value(*entry);
                assert(entry_value(self.entries@[e]) == entry_value(*entry));
                assert(bucket@.contains(e as usize));
                let q = choose|q: int| 0 <= q < bucket@.len() && bucket@[q] == e as usize;
                assert(self@[bucket@[q] as int] == entry_value(*entry));
            }
        }
        None
    }

    /// Takes an entry that is not held yet.
    pub fn push(&mut self, entry: Entry)
        requires
            old(self).wf(),
            !old(self)@.contains(entry_value(entry)),
        ensures
            final(self).wf(),
            final(self)@ == old(self)@.push(entry_value(entry)),
    {
        let ghost before = self@;
        let ghost entries = self.entries@;
        let ghost buckets = self.buckets@;
        let hash: u64 = hash_entry(&entry);
        let at: usize = (hash % self.buckets.len() as u64) as usize;
        let next: usize = self.entries.len();
        let ghost value = entry_value(entry);
        self.entries.push(entry);
        self.buckets[at].push(next);
        proof {
            assert(self@ =~= before.push(value));
            assert(self.buckets@[at as int]@ == buckets[at as int]@.push(next));
            assert(self.buckets@.len() == buckets.len());
            assert forall|i: int, j: int|
                0 <= i < self@.len() && 0 <= j < self@.len() && i != j implies self@[i]
                != self@[j] by {
                if i < before.len() && j < before.len() {
                    assert(before[i] != before[j]);
                } else if i < before.len() {
                    assert(before.contains(before[i]));
                } else {
                    assert(before.contains(before[j]));
                }
            }
            assert forall|b: int, k: int|
                0 <= b < self.buckets@.len() && 0 <= k
                    < self.buckets@[b]@.len() implies #[trigger] self.buckets@[b]@[k]
                < self.entries@.len() by {
                if b == at {
                    if k < buckets[b]@.len() {
                        assert(self.buckets@[b]@[k] == buckets[b]@[k]);
                    }
                } else {
                    assert(self.buckets@[b] == buckets[b]);
                }
            }
            assert forall|e: int| 0 <= e < self.entries@.len() implies self.buckets@[value_hash(
                #[trigger] entry_value(self.entries@[e]),
            ) % (self.buckets@.len() as int)]@.contains(e as usize) by {
                if e < entries.len() {
                    let b = value_hash(entry_value(entries[e])) % (buckets.len() as int);
                    assert(buckets[b]@.contains(e as usize));
                    let k = choose|k: int|
                        0 <= k < buckets[b]@.len() && buckets[b]@[k] == e as usize;
                    assert(self.buckets@[b]@[k] == e as usize);
                } else {
                    let b = at as int;
                    assert(self.buckets@[b]@[self.buckets@[b]@.len() - 1] == e as usize);
                }
            }
        }
    }
}

/// The entry at place `i` of values that can be merged.
fn entry_at(values: &AnyArray, i: usize) -> (r: Entry)
    requires
        valid(contents(*values)),
        mergeable(contents(*values).data_type),
        i < contents(*values).len,
    ensures
        entry_value(r) == row(contents(*values), i as int),
{
    let ghost m = contents(*values);
    proof {
        lemma_null_at(m, i as int);
        slice_keeps_rows(m, i as int, 1);
    }
    match values.nulls() {
        Some(nulls) => {
            if !nulls.is_valid(i) {
                return None;
            }
        },
        None => {},
    }
    let bytes: Vec<u8> = match shape_of(&values.data_type()) {
        Shape::Bytes { .. } => values.bytes_cell(i),
        _ => values.primitive_cell(i),
    };
    Some(bytes)
}

/// Whether a slot of a dictionary array refers to value `k`.
pub open spec fn refers_to(m: ArrayModel, k: int) -> bool {
    exists|q: int| 0 <= q < m.len && !null_at(m, q) && #[trigger] m.ints[q] == k
}

/// Which values the slots of a dictionary array refer to.
fn referred(array: &AnyArray, keys: &Vec<i128>, values_len: usize) -> (r: Vec<bool>)
    requires
        valid(contents(*array)),
        contents(*array).data_type.shape is Dictionary,
        keys_read(*array, keys@),
        values_len == contents(*array).children[0].len,
    ensures
        r@.len() == values_len,
        forall|k: int| 0 <= k < r@.len() ==> #[trigger] r@[k] == refers_to(contents(*array), k),
{
    let ghost m = contents(*array);
    let mut used: Vec<bool> = Vec::with_capacity(values_len);
    let mut n: usize = 0;
    while n < values_len
        invariant
            0 <= n <= values_len,
            used@.len() == n,
            forall|k: int| 0 <= k < n ==> !(#[trigger] used@[k]),
        decreases values_len - n,
    {
        used.push(false);
        n += 1;
    }
    let nulls = array.nulls();
    let mut q: usize = 0;
    while q < keys.len()
        invariant
            0 <= q <= keys@.len(),
            m == contents(*array),
            valid(m),
            m.data_type.shape is Dictionary,
            keys_read(*array, keys@),
            used@.len() == values_len,
            values_len == m.children[0].len,
            nulls is None ==> m.nulls is None,
            nulls matches Some(b) ==> null_bits(b) == validity(m),
            forall|k: int|
                0 <= k < used@.len() ==> #[trigger] used@[k] == exists|p: int|
                    0 <= p < q && !null_at(m, p) && #[trigger] m.ints[p] == k,
        decreases keys@.len() - q,
    {
        let present: bool = match &nulls {
            Some(bits) => bits.is_valid(q),
            None => true,
        };
        proof {
            lemma_null_at(m, q as int);
            assert(keys@[q as int] == m.ints[q as int]);
        }
        let ghost before = used@;
        if present {
            assert(!null_at(m, q as int));
            let key: usize = keys[q] as usize;
            used.set(key, true);
            assert forall|k: int| 0 <= k < used@.len() implies #[trigger] used@[k] == exists|p: int|
                0 <= p < q + 1 && !null_at(m, p) && #[trigger] m.ints[p] == k by {
                if k == key {
                    assert(m.ints[q as int] == k);
                } else {
                    assert(used@[k] == before[k]);
                }
            }
        } else {
            assert(null_at(m, q as int));
        }
        q += 1;
    }
    used
}

/// Whether each piece is one slot of type `t` with the value of the entry in its place.
pub open spec fn pieces_of(pieces: Seq<AnyArray>, entries: Seq<Value>, t: TypeModel) -> bool {
    &&& pieces.len() == entries.len()
    &&& forall|e: int|
        0 <= e < pieces.len() ==> {
            let m = contents(#[trigger] pieces[e]);
            &&& valid(m)
            &&& m.data_type == t
            &&& m.len == 1
            &&& row(m, 0) == entries[e]
        }
}

/// Whether a slot of one of the dictionary arrays refers to a value. A slot that is null refers to none.
pub open spec fn refers(ms: Seq<ArrayModel>, value: Value) -> bool {
    exists|i: int, q: int|
        0 <= i < ms.len() && 0 <= q < ms[i].len && !null_at(ms[i], q) && #[trigger] row(ms[i], q)
            == value
}

/// Whether dictionary arrays refer to more distinct values than keys up to `max` can number.
pub open spec fn crowded(ms: Seq<ArrayModel>, max: int) -> bool {
    exists|distinct: Seq<Value>|
        {
            &&& #[trigger] distinct.no_duplicates()
            &&& distinct.len() > max + 1
            &&& forall|e: int| 0 <= e < distinct.len() ==> refers(ms, #[trigger] distinct[e])
        }
}

/// Whether a value is one of those that are used.
pub open spec fn among(m: ArrayModel, used: Seq<bool>, value: Value) -> bool {
    exists|k: int| 0 <= k < used.len() && #[trigger] used[k] && row(m, k) == value
}

/// The values that are used among the first `n`, in order.
pub open spec fn chosen(m: ArrayModel, used: Seq<bool>, n: int) -> Seq<Value>
    decreases n,
{
    if n <= 0 {
        seq![]
    } else if used[n - 1] {
        chosen(m, used, n - 1).push(row(m, n - 1))
    } else {
        chosen(m, used, n - 1)
    }
}

/// Values that are held, and behind them those of others that are not held yet, each once, in order.
pub open spec fn held_with(held: Seq<Value>, more: Seq<Value>) -> Seq<Value>
    decreases more.len(),
{
    if more.len() == 0 {
        held
    } else {
        let before = held_with(held, more.drop_last());
        if before.contains(more.last()) {
            before
        } else {
            before.push(more.last())
        }
    }
}

/// Values are taken one group after the other.
proof fn lemma_held_with(held: Seq<Value>, a: Seq<Value>, b: Seq<Value>)
    ensures
        held_with(held_with(held, a), b) == held_with(held, a + b),
    decreases b.len(),
{
    if b.len() == 0 {
        assert(a + b =~= a);
    } else {
        assert((a + b).drop_last() =~= a + b.drop_last());
        assert((a + b).last() == b.last());
        lemma_held_with(held, a, b.drop_last());
    }
}

/// Which of the values of a dictionary array its slots refer to.
pub open spec fn referred_flags(m: ArrayModel) -> Seq<bool> {
    Seq::new(m.children[0].len, |k: int| refers_to(m, k))
}

/// The values that the slots of dictionary arrays refer to, in the order in which the arrays and their
/// dictionaries have them.
pub open spec fn referred_values(ms: Seq<ArrayModel>) -> Seq<Value>
    decreases ms.len(),
{
    if ms.len() == 0 {
        seq![]
    } else {
        let last = ms.last();
        referred_values(ms.drop_last()) + chosen(
            last.children[0],
            referred_flags(last),
            last.children[0].len as int,
        )
    }
}

/// Takes the values that a dictionary array refers to, and tells where each is held. Fails at a value
/// for which no key is left.
fn merge_one(
    values: &AnyArray,
    used: &Vec<bool>,
    max: i128,
    interner: &mut Interner,
    pieces: &mut Vec<AnyArray>,
) -> (r: Option<Vec<usize>>)
    requires
        valid(contents(*values)),
        mergeable(contents(*values).data_type),
        used@.len() == contents(*values).len,
        0 < max,
        old(interner).wf(),
        old(interner)@.len() <= max + 1,
        pieces_of(old(pieces)@, old(interner)@, contents(*values).data_type),
    ensures
        final(interner).wf(),
        final(interner)@.len() <= max + 1,
        pieces_of(final(pieces)@, final(interner)@, contents(*values).data_type),
        old(interner)@.len() <= final(interner)@.len() <= old(interner)@.len() + used@.len(),
        r is None ==> final(interner)@.len() < old(interner)@.len() + used@.len(),
        forall|e: int|
            0 <= e < old(interner)@.len() ==> #[trigger] final(interner)@[e] == old(interner)@[e],
        forall|e: int|
            old(interner)@.len() <= e < final(interner)@.len() ==> among(
                contents(*values),
                used@,
                #[trigger] final(interner)@[e],
            ),
        contents(*values).data_type.shape is Bytes ==> extent_total(models(final(pieces)@))
            <= extent_total(models(old(pieces)@)) + extent(contents(*values)),
        r is Some ==> final(interner)@ == held_with(
            old(interner)@,
            chosen(contents(*values), used@, used@.len() as int),
        ),
        r matches Some(mapping) ==> {
            &&& mapping@.len() == used@.len()
            &&& forall|k: int| 0 <= k < mapping@.len() ==> #[trigger] mapping@[k] <= max
            &&& forall|k: int|
                0 <= k < mapping@.len() && used@[k] ==> #[trigger] mapping@[k]
                    < final(interner)@.len() && final(interner)@[mapping@[k] as int] == row(
                    contents(*values),
                    k,
                )
        },
        r is None ==> final(interner)@.len() == max + 1 && exists|k: int|
            0 <= k < used@.len() && #[trigger] used@[k] && !final(interner)@.contains(
                row(contents(*values), k),
            ),
{
    let ghost m = contents(*values);
    let ghost t = m.data_type;
    let ghost start = interner@;
    let ghost start_pieces = models(pieces@);
    let mut mapping: Vec<usize> = Vec::with_capacity(used.len());
    let mut k: usize = 0;
    while k < used.len()
        invariant
            0 <= k <= used@.len(),
            m == contents(*values),
            t == m.data_type,
            valid(m),
            mergeable(t),
            used@.len() == m.len,
            0 < max,
            start == old(interner)@,
            start_pieces == models(old(pieces)@),
            interner.wf(),
            interner@.len() <= max + 1,
            pieces_of(pieces@, interner@, t),
            start.len() <= interner@.len() <= start.len() + k,
            forall|e: int| 0 <= e < start.len() ==> #[trigger] interner@[e] == start[e],
            forall|e: int|
                start.len() <= e < interner@.len() ==> among(m, used@, #[trigger] interner@[e]),
            t.shape is Bytes ==> extent_total(models(pieces@)) <= extent_total(start_pieces) + (
            m.offsets[k as int] - m.offsets[0]),
            interner@ == held_with(start, chosen(m, used@, k as int)),
            mapping@.len() == k,
            forall|q: int| 0 <= q < k ==> #[trigger] mapping@[q] <= max,
            forall|q: int|
                0 <= q < k && used@[q] ==> #[trigger] mapping@[q] < interner@.len()
                    && interner@[mapping@[q] as int] == row(m, q),
        decreases used@.len() - k,
    {
        proof {
            if t.shape is Bytes {
                assert(m.offsets[k as int] <= m.offsets[k + 1]);
            }
        }
        proof {
            if used@[k as int] {
                let next = chosen(m, used@, k + 1);
                assert(next.drop_last() =~= chosen(m, used@, k as int));
                assert(next.last() == row(m, k as int));
            }
        }
        if used[k] {
            let entry = entry_at(values, k);
            match interner.find(&entry) {
                Some(e) => {
                    assert(interner@.contains(row(m, k as int))) by {
                        assert(interner@[e as int] == row(m, k as int));
                    }
                    mapping.push(e);
                },
                None => {
                    let next: usize = interner.len();
                    if next as i128 > max {
                        proof {
                            assert(used@[k as int]);
                            if t.shape is Bytes {
                                assert(m.offsets[k as int] <= m.offsets[m.len as int]);
                            }
                        }
                        return None;
                    }
                    let ghost before = interner@;
                    let ghost before_pieces = pieces@;
                    let piece = values.slice(k, 1);
                    proof {
                        slice_keeps_rows(m, k as int, 1);
                        lemma_sliced_row(m, k as int, 1, 0);
                        assert(models(pieces@.push(piece)) =~= models(pieces@).push(
                            contents(piece),
                        ));
                        assert(models(pieces@.push(piece)).drop_last() =~= models(pieces@));
                        assert(t.shape is Bytes ==> extent(contents(piece)) == m.offsets[k + 1]
                            - m.offsets[k as int]);
                    }
                    interner.push(entry);
                    pieces.push(piece);
                    mapping.push(next);
                    proof {
                        assert forall|e: int| 0 <= e < pieces@.len() implies {
                            let p = contents(#[trigger] pieces@[e]);
                            &&& valid(p)
                            &&& p.data_type == t
                            &&& p.len == 1
                            &&& row(p, 0) == interner@[e]
                        } by {
                            if e < before_pieces.len() {
                                assert(pieces@[e] == before_pieces[e]);
                                assert(interner@[e] == before[e]);
                            }
                        }
                        assert forall|e: int| start.len() <= e < interner@.len() implies among(
                            m,
                            used@,
                            #[trigger] interner@[e],
                        ) by {
                            if e < before.len() {
                                assert(interner@[e] == before[e]);
                            } else {
                                assert(used@[k as int] && row(m, k as int) == interner@[e]);
                            }
                        }
                        assert forall|q: int| 0 <= q < k && used@[q] implies #[trigger] mapping@[q]
                            < interner@.len() && interner@[mapping@[q] as int] == row(m, q) by {
                            assert(interner@[mapping@[q] as int] == before[mapping@[q] as int]);
                        }
                    }
                },
            }
        } else {
            mapping.push(0);
        }
        k += 1;
    }
    proof {
        if t.shape is Bytes {
            assert(m.offsets.last() == m.offsets[m.len as int]);
        }
    }
    Some(mapping)
}

/// The rows of pieces of one slot each are the values of the entries.
proof fn lemma_pieces_joined(pieces: Seq<AnyArray>, entries: Seq<Value>, t: TypeModel)
    requires
        pieces_of(pieces, entries, t),
    ensures
        joined(models(pieces)) == entries,
        total(models(pieces)) == entries.len(),
        all_valid(models(pieces)),
        one_type(models(pieces)),
    decreases pieces.len(),
{
    let ms = models(pieces);
    assert forall|i: int| 0 <= i < ms.len() implies valid(#[trigger] ms[i]) && ms[i].data_type
        == t by {
        assert(ms[i] == contents(pieces[i]));
    }
    if pieces.len() > 0 {
        let front = pieces.drop_last();
        assert forall|e: int| 0 <= e < front.len() implies {
            let m = contents(#[trigger] front[e]);
            &&& valid(m)
            &&& m.data_type == t
            &&& m.len == 1
            &&& row(m, 0) == entries.drop_last()[e]
        } by {
            assert(front[e] == pieces[e]);
        }
        lemma_pieces_joined(front, entries.drop_last(), t);
        assert(ms.drop_last() =~= models(front));
        let last = pieces[pieces.len() - 1];
        assert(ms.last() == contents(last));
        assert(rows(contents(last)) =~= seq![entries.last()]);
        assert(joined(ms) =~= entries);
    } else {
        assert(joined(ms) =~= entries);
    }
}

/// Whether the values that a dictionary array refers to are found through a mapping.
pub open spec fn mapped(m: ArrayModel, mapping: Seq<usize>, values: Seq<Value>) -> bool {
    &&& mapping.len() == m.children[0].len
    &&& forall|q: int|
        0 <= q < m.len && !null_at(m, q) ==> {
            &&& mapping[#[trigger] m.ints[q]] < values.len()
            &&& values[mapping[m.ints[q]] as int] == rows(m.children[0])[m.ints[q]]
        }
}

/// Values of dictionaries put together: where each dictionary's values are now, and the values.
pub struct MergedDictionaries {
    pub key_mappings: Vec<Vec<usize>>,
    pub values: AnyArray,
}

impl MergedDictionaries {
    /// Whether keys, one array after the other, are what the mappings make of those of the first `n`
    /// arrays, as far as the slots are not null.
    pub open spec fn leads(&self, ms: Seq<ArrayModel>, n: int, keys: Seq<int>, shared: bool) -> bool {
        forall|p: int, q: int|
            0 <= p < n && 0 <= q < ms[p].len && !null_at(ms[p], q) ==> keys[total(ms.take(p)) + q]
                == self.key_mappings@[if shared {
                0
            } else {
                p
            }]@[#[trigger] ms[p].ints[q]]
    }

    /// Whether the mappings lead the slots of the dictionary arrays to their values, with keys up to
    /// `max`. Where `shared`, one mapping serves all arrays.
    pub open spec fn covers(&self, ms: Seq<ArrayModel>, max: int, shared: bool) -> bool {
        let values = rows(contents(self.values));
        &&& valid(contents(self.values))
        &&& shared ==> self.key_mappings@.len() == 1
        &&& !shared ==> self.key_mappings@.len() == ms.len()
        &&& forall|i: int|
            0 <= i < ms.len() ==> mapped(
                #[trigger] ms[i],
                self.key_mappings@[if shared {
                    0
                } else {
                    i
                }]@,
                values,
            )
        &&& forall|i: int, k: int|
            0 <= i < self.key_mappings@.len() && 0 <= k < self.key_mappings@[i]@.len()
                ==> #[trigger] self.key_mappings@[i]@[k] <= max
    }
}

/// Whether these are dictionary arrays of one type, with keys of this kind, whose values are given.
pub open spec fn dictionaries(
    arrays: Seq<AnyArray>,
    values: Seq<AnyArray>,
    kind: Primitive,
) -> bool {
    let ms = models(arrays);
    &&& joinable(ms)
    &&& ms[0].data_type.shape is Dictionary
    &&& ms[0].data_type.fields[0].data_type.shape == Shape::Primitive(kind)
    &&& models(values) == child_models(ms, 0)
}

/// What holds of dictionary arrays and their values.
proof fn lemma_dictionaries(arrays: Seq<AnyArray>, values: Seq<AnyArray>, kind: Primitive)
    requires
        dictionaries(arrays, values, kind),
    ensures
        values.len() == arrays.len(),
        integer_max(kind) > 0,
        all_valid(models(values)),
        one_type(models(values)),
        models(values)[0].data_type == models(arrays)[0].data_type.fields[1].data_type,
        forall|i: int|
            0 <= i < arrays.len() ==> {
                &&& valid(contents(#[trigger] arrays[i]))
                &&& contents(arrays[i]).data_type == models(arrays)[0].data_type
                &&& contents(values[i]) == contents(arrays[i]).children[0]
                &&& valid(contents(values[i]))
                &&& contents(values[i]).data_type
                    == models(arrays)[0].data_type.fields[1].data_type
            },
{
    let ms = models(arrays);
    assert(models(values).len() == ms.len());
    assert(valid(ms[0]));
    assert forall|i: int| 0 <= i < ms.len() implies 0 <= 0 < (#[trigger] ms[i]).children.len() by {
        assert(valid(ms[i]));
        assert(ms[i].data_type == ms[0].data_type);
    }
    lemma_children(ms, 0);
    assert forall|i: int| 0 <= i < arrays.len() implies {
        &&& valid(contents(#[trigger] arrays[i]))
        &&& contents(arrays[i]).data_type == ms[0].data_type
        &&& contents(values[i]) == contents(arrays[i]).children[0]
        &&& valid(contents(values[i]))
        &&& contents(values[i]).data_type == ms[0].data_type.fields[1].data_type
    } by {
        assert(valid(ms[i]));
        assert(ms[i].data_type == ms[0].data_type);
        assert(models(values)[i] == child_models(ms, 0)[i]);
        assert(valid(models(values)[i]));
        assert(models(values)[i].data_type == models(values)[0].data_type);
    }
}

/// Merges the values that dictionary arrays refer to: each is held once, in the order in which the
/// arrays and their dictionaries have them.
pub(crate) fn merge_dictionary_values(
    arrays: &[AnyArray],
    values: &[AnyArray],
    kind: Primitive,
    expected: usize,
) -> (r: Result<MergedDictionaries, ConcatError>)
    requires
        dictionaries(arrays@, values@, kind),
        mergeable(contents(values@[0]).data_type),
    ensures
        r matches Ok(merged) ==> {
            &&& merged.covers(models(arrays@), integer_max(kind), false)
            &&& contents(merged.values).data_type == contents(values@[0]).data_type
            &&& rows(contents(merged.values)).no_duplicates()
            &&& rows(contents(merged.values)) == held_with(
                Seq::empty(),
                referred_values(models(arrays@)),
            )
            &&& forall|e: int|
                0 <= e < contents(merged.values).len ==> refers(
                    models(arrays@),
                    #[trigger] rows(contents(merged.values))[e],
                )
            &&& contents(merged.values).len <= total(models(values@))
            &&& no_new_nulls(models(values@), contents(merged.values))
        },
        r matches Err(e) ==> e is DictionaryKeyOverflow || e is DictionaryValueOverflow,
        r matches Err(e) && e is DictionaryKeyOverflow ==> crowded(
            models(arrays@),
            integer_max(kind),
        ) && total(models(values@)) > integer_max(kind),
        r matches Err(e) && e is DictionaryValueOverflow ==> !copies_fit(
            contents(values@[0]).data_type,
            models(values@),
        ),
{
    let ghost ms = models(arrays@);
    let ghost vs = models(values@);
    let ghost t = contents(values@[0]).data_type;
    proof {
        lemma_dictionaries(arrays@, values@, kind);
        assert(vs[0] == contents(values@[0]));
    }
    let max: i128 = max_of(kind);
    let mut interner = Interner::new(expected);
    let mut pieces: Vec<AnyArray> = Vec::new();
    let mut key_mappings: Vec<Vec<usize>> = Vec::with_capacity(arrays.len());
    let mut i: usize = 0;
    assert(models(pieces@) =~= Seq::empty());
    assert(vs.take(0) =~= Seq::empty());
    assert(ms.take(0) =~= Seq::empty());
    assert(interner@ =~= Seq::empty());
    while i < arrays.len()
        invariant
            0 <= i <= arrays@.len(),
            ms == models(arrays@),
            vs == models(values@),
            t == contents(values@[0]).data_type,
            dictionaries(arrays@, values@, kind),
            mergeable(t),
            max == integer_max(kind),
            interner.wf(),
            interner@.len() <= max + 1,
            interner@.len() <= total(vs.take(i as int)),
            pieces_of(pieces@, interner@, t),
            interner@ == held_with(Seq::empty(), referred_values(ms.take(i as int))),
            forall|e: int| 0 <= e < interner@.len() ==> refers(ms, #[trigger] interner@[e]),
            t.shape is Bytes ==> extent_total(models(pieces@)) <= extent_total(vs.take(i as int)),
            key_mappings@.len() == i,
            forall|p: int| 0 <= p < i ==> mapped(ms[p], #[trigger] key_mappings@[p]@, interner@),
            forall|p: int, k: int|
                0 <= p < i && 0 <= k < key_mappings@[p]@.len()
                    ==> #[trigger] key_mappings@[p]@[k] <= max,
        decreases arrays@.len() - i,
    {
        let array = &arrays[i];
        let ghost m = ms[i as int];
        proof {
            lemma_dictionaries(arrays@, values@, kind);
            assert(m == contents(arrays@[i as int]));
            assert(contents(values@[i as int]) == m.children[0]);
            assert(vs[i as int] == contents(values@[i as int]));
            assert(vs[0] == contents(values@[0]));
            lemma_take_step(vs, i as int);
        }
        let keys = keys_of(array, kind);
        let values_len: usize = values[i].len();
        let used = referred(array, &keys, values_len);
        let ghost before = interner@;
        let merged = merge_one(&values[i], &used, max, &mut interner, &mut pieces);
        proof {
            assert forall|k: int| 0 <= k < used@.len() && used@[k] implies refers(
                ms,
                #[trigger] row(m.children[0], k),
            ) by {
                assert(refers_to(m, k));
                let q = choose|q: int|
                    0 <= q < m.len && !null_at(m, q) && #[trigger] m.ints[q] == k;
                lemma_dictionary_rows(m);
                lemma_null_at(m, q);
                assert(rows(m)[q] == dictionary_rows(validity(m), m.ints, rows(m.children[0]))[q]);
                assert(row(m, q) == row(m.children[0], k));
                assert(row(ms[i as int], q) == row(m.children[0], k));
            }
            assert forall|e: int| 0 <= e < interner@.len() implies refers(
                ms,
                #[trigger] interner@[e],
            ) by {
                if e < before.len() {
                    assert(interner@[e] == before[e]);
                } else {
                    assert(among(m.children[0], used@, interner@[e]));
                    let k = choose|k: int|
                        0 <= k < used@.len() && #[trigger] used@[k] && row(m.children[0], k)
                            == interner@[e];
                    assert(refers(ms, row(m.children[0], k)));
                }
            }
        }
        match merged {
            Some(mapping) => {
                proof {
                    assert(used@ =~= referred_flags(m));
                    lemma_take_step(ms, i as int);
                    lemma_held_with(
                        Seq::empty(),
                        referred_values(ms.take(i as int)),
                        chosen(m.children[0], used@, used@.len() as int),
                    );
                    assert forall|p: int| 0 <= p < i implies mapped(
                        ms[p],
                        #[trigger] key_mappings@[p]@,
                        interner@,
                    ) by {
                        let old_mapping = key_mappings@[p]@;
                        assert(mapped(ms[p], old_mapping, before));
                        assert forall|q: int| 0 <= q < ms[p].len && !null_at(ms[p], q) implies {
                            &&& old_mapping[#[trigger] ms[p].ints[q]] < interner@.len()
                            &&& interner@[old_mapping[ms[p].ints[q]] as int] == rows(
                                ms[p].children[0],
                            )[ms[p].ints[q]]
                        } by {
                            let e = old_mapping[ms[p].ints[q]] as int;
                            assert(interner@[e] == before[e]);
                        }
                    }
                    assert(mapped(m, mapping@, interner@)) by {
                        assert forall|q: int| 0 <= q < m.len && !null_at(m, q) implies {
                            &&& mapping@[#[trigger] m.ints[q]] < interner@.len()
                            &&& interner@[mapping@[m.ints[q]] as int] == rows(
                                m.children[0],
                            )[m.ints[q]]
                        } by {
                            let k = m.ints[q];
                            assert(refers_to(m, k));
                            assert(used@[k]);
                            assert(mapping@[k] < interner@.len());
                        }
                    }
                }
                let ghost mappings = key_mappings@;
                key_mappings.push(mapping);
                proof {
                    assert forall|p: int| 0 <= p < i + 1 implies mapped(
                        ms[p],
                        #[trigger] key_mappings@[p]@,
                        interner@,
                    ) by {
                        if p < i {
                            assert(key_mappings@[p] == mappings[p]);
                        }
                    }
                    assert forall|p: int, k: int|
                        0 <= p < i + 1 && 0 <= k < key_mappings@[p]@.len() implies (
                    #[trigger] key_mappings@[p]@[k]) <= max by {
                        if p < i {
                            assert(key_mappings@[p] == mappings[p]);
                            assert(mappings[p]@[k] <= max);
                        }
                    }
                }
            },
            None => {
                proof {
                    let k = choose|k: int|
                        0 <= k < used@.len() && #[trigger] used@[k] && !interner@.contains(
                            row(m.children[0], k),
                        );
                    let extra = row(m.children[0], k);
                    let distinct = interner@.push(extra);
                    assert(refers(ms, extra));
                    lemma_push_distinct(&interner, extra);
                    assert(distinct.no_duplicates());
                    assert forall|e: int| 0 <= e < distinct.len() implies refers(
                        ms,
                        #[trigger] distinct[e],
                    ) by {
                        if e < interner@.len() {
                            assert(distinct[e] == interner@[e]);
                        }
                    }
                    assert(crowded(ms, max as int));
                    lemma_total_prefix(vs, i + 1);
                }
                return Err(ConcatError::DictionaryKeyOverflow);
            },
        }
        i += 1;
    }
    proof {
        assert(vs.take(i as int) =~= vs);
        assert(ms.take(i as int) =~= ms);
        lemma_pieces_joined(pieces@, interner@, t);
        lemma_dictionaries(arrays@, values@, kind);
        lemma_interner_distinct(&interner);
    }
    let ghost entries = interner@;
    if pieces.len() == 0 {
        let ghost v = contents(values@[0]);
        proof {
            slice_keeps_rows(v, 0, 0);
            lemma_joined_one(sliced(v, 0, 0));
        }
        let piece = values[0].slice(0, 0);
        pieces.push(piece);
        proof {
            let parts = models(pieces@);
            assert(parts =~= seq![sliced(v, 0, 0)]);
            assert(parts.drop_last() =~= Seq::empty());
            assert(extent_total(parts.drop_last()) == 0);
            assert(t.shape is Bytes ==> extent(sliced(v, 0, 0)) == 0);
            assert(t.shape is Bytes ==> extent_total(parts) == 0);
            assert(entries =~= Seq::empty());
            assert(rows(sliced(v, 0, 0)) =~= entries);
            assert(total(models(pieces@)) == 0);
            assert forall|k: int| 0 <= k < models(pieces@).len() implies valid(
                #[trigger] models(pieces@)[k],
            ) by {}
        }
    }
    let ghost parts = models(pieces@);
    assert(t.shape is Bytes ==> extent_total(parts) <= extent_total(vs) || extent_total(parts) == 0);
    assert(joined(parts) == entries);
    assert(joinable(parts));
    assert(parts[0] == contents(pieces@[0]));
    assert(parts[0].data_type == t);
    let merged_values: AnyArray = match shape_of(&values[0].data_type()) {
        Shape::Primitive(kind) => concat_primitives(pieces.as_slice(), kind),
        Shape::Bytes { large } => {
            proof {
                assert forall|k: int| 0 <= k < pieces@.len() implies contents(
                    #[trigger] pieces@[k],
                ).data_type.shape == (Shape::Bytes { large }) by {
                    assert(parts[k].data_type == parts[0].data_type);
                }
            }
            if !check_bytes(pieces.as_slice(), large) {
                return Err(ConcatError::DictionaryValueOverflow);
            }
            concat_bytes(pieces.as_slice(), large)
        },
        _ => {
            assert(false);
            values[0].slice(0, 0)
        },
    };
    let merged = MergedDictionaries { key_mappings, values: merged_values };
    proof {
        let out = rows(contents(merged.values));
        assert(out == entries);
        assert forall|p: int| 0 <= p < ms.len() implies mapped(
            #[trigger] ms[p],
            merged.key_mappings@[p]@,
            out,
        ) by {
            assert(mapped(ms[p], key_mappings@[p]@, entries));
        }
        assert forall|e: int| 0 <= e < contents(merged.values).len implies refers(
            ms,
            #[trigger] out[e],
        ) by {
            assert(out[e] == entries[e]);
        }
        lemma_merged_nulls(ms, contents(merged.values));
        assert(child_models(ms, 0) == vs);
    }
    Ok(merged)
}

/// Merged values hold a null only where the values of one of the dictionary arrays do.
proof fn lemma_merged_nulls(ms: Seq<ArrayModel>, v: ArrayModel)
    requires
        all_valid(ms),
        forall|i: int|
            0 <= i < ms.len() ==> (#[trigger] ms[i]).data_type.shape is Dictionary
                && ms[i].children[0].data_type == v.data_type,
        mergeable(v.data_type),
        valid(v),
        forall|e: int| 0 <= e < v.len ==> refers(ms, #[trigger] rows(v)[e]),
    ensures
        no_new_nulls(child_models(ms, 0), v),
{
    if holds_null(v) {
        let bits = v.nulls->Some_0;
        let e = choose|e: int| 0 <= e < bits.len() && bits[e] == false;
        lemma_null_at(v, e);
        assert(rows(v)[e] == Value::Null);
        let (i, q) = choose|i: int, q: int|
            0 <= i < ms.len() && 0 <= q < ms[i].len && !null_at(ms[i], q) && #[trigger] row(
                ms[i],
                q,
            ) == Value::Null;
        let m = ms[i];
        let child = m.children[0];
        assert(valid(m));
        assert(valid(child));
        lemma_dictionary_rows(m);
        lemma_null_at(m, q);
        assert(rows(m)[q] == dictionary_rows(validity(m), m.ints, rows(child))[q]);
        assert(row(child, m.ints[q]) == Value::Null);
        assert(null_at(child, m.ints[q]));
        assert(holds_null(child_models(ms, 0)[i]));
    }
}

/// An interner holds no value twice.
proof fn lemma_interner_distinct(interner: &Interner)
    requires
        interner.wf(),
    ensures
        interner@.no_duplicates(),
{
}

/// A value that an interner does not hold is distinct from those it holds.
proof fn lemma_push_distinct(interner: &Interner, value: Value)
    requires
        interner.wf(),
        !interner@.contains(value),
    ensures
        interner@.push(value).no_duplicates(),
{
    let held = interner@;
    let all = held.push(value);
    assert forall|i: int, j: int| 0 <= i < all.len() && 0 <= j < all.len() && i != j implies all[i]
        != all[j] by {
        if i < held.len() && j < held.len() {
            assert(held[i] != held[j]);
        } else if i < held.len() {
            assert(held.contains(held[i]));
        } else {
            assert(held.contains(held[j]));
        }
    }
}

/// The keys of dictionary arrays, one array after the other, as mappings lead them.
fn recompute_keys(
    arrays: &[AnyArray],
    merged: &MergedDictionaries,
    shared: bool,
    kind: Primitive,
    len: usize,
) -> (r: Vec<i128>)
    requires
        joinable(models(arrays@)),
        len == total(models(arrays@)),
        contents(arrays@[0]).data_type.shape is Dictionary,
        contents(arrays@[0]).data_type.fields[0].data_type.shape == Shape::Primitive(kind),
        merged.covers(models(arrays@), integer_max(kind), shared),
    ensures
        r@.len() == len,
        forall|i: int| 0 <= i < r@.len() ==> 0 <= #[trigger] r@[i] <= integer_max(kind),
        forall|i: int|
            0 <= i < r@.len() && joined_validity(models(arrays@))[i] ==> #[trigger] r@[i]
                < contents(merged.values).len,
        joined(models(arrays@)) == dictionary_rows(
            joined_validity(models(arrays@)),
            key_ints(r@),
            rows(contents(merged.values)),
        ),
        merged.leads(models(arrays@), arrays@.len() as int, key_ints(r@), shared),
{
    let ghost ms = models(arrays@);
    let ghost out = rows(contents(merged.values));
    let ghost max = integer_max(kind);
    let mut keys: Vec<i128> = Vec::with_capacity(len);
    let mut i: usize = 0;
    assert(ms[0] == contents(arrays@[0]));
    assert(ms.take(0) =~= Seq::empty());
    assert(key_ints(keys@) =~= Seq::empty());
    assert(joined(ms.take(0)) =~= dictionary_rows(
        joined_validity(ms.take(0)),
        key_ints(keys@),
        out,
    ));
    while i < arrays.len()
        invariant
            0 <= i <= arrays@.len(),
            ms == models(arrays@),
            joinable(ms),
            ms[0].data_type.shape is Dictionary,
            ms[0].data_type.fields[0].data_type.shape == Shape::Primitive(kind),
            max == integer_max(kind),
            out == rows(contents(merged.values)),
            merged.covers(ms, max, shared),
            keys@.len() == total(ms.take(i as int)),
            forall|q: int| 0 <= q < keys@.len() ==> 0 <= #[trigger] keys@[q] <= max,
            forall|q: int|
                0 <= q < keys@.len() && joined_validity(ms.take(i as int))[q]
                    ==> #[trigger] keys@[q] < out.len(),
            joined(ms.take(i as int)) == dictionary_rows(
                joined_validity(ms.take(i as int)),
                key_ints(keys@),
                out,
            ),
            merged.leads(ms, i as int, key_ints(keys@), shared),
        decreases arrays@.len() - i,
    {
        let array = &arrays[i];
        let ghost m = ms[i as int];
        let ghost front = ms.take(i as int);
        let at: usize = if shared {
            0
        } else {
            i
        };
        proof {
            assert(m == contents(arrays@[i as int]));
            assert(valid(m));
            assert(valid(ms[0]));
            assert(m.data_type == ms[0].data_type);
            lemma_take_step(ms, i as int);
            assert(all_valid(front)) by {
                assert forall|q: int| 0 <= q < front.len() implies valid(#[trigger] front[q]) by {
                    assert(front[q] == ms[q]);
                }
            }
            lemma_joined_len(front);
            assert(mapped(m, merged.key_mappings@[at as int]@, out));
        }
        let mapping = &merged.key_mappings[at];
        let old_keys = keys_of(array, kind);
        let ghost before = keys@;
        let mut k: usize = 0;
        while k < old_keys.len()
            invariant
                0 <= k <= old_keys@.len(),
                m == contents(*array),
                valid(m),
                m.data_type.shape is Dictionary,
                keys_read(*array, old_keys@),
                mapped(m, mapping@, out),
                forall|q: int| 0 <= q < mapping@.len() ==> #[trigger] mapping@[q] <= max,
                keys@.len() == before.len() + k,
                max >= 0,
                forall|q: int| 0 <= q < before.len() ==> #[trigger] keys@[q] == before[q],
                forall|q: int|
                    before.len() <= q < keys@.len() ==> 0 <= #[trigger] keys@[q] <= max,
                forall|q: int|
                    before.len() <= q < keys@.len() && !null_at(m, q - before.len()) ==> (
                    #[trigger] keys@[q]) < out.len() && out[keys@[q] as int] == rows(
                        m.children[0],
                    )[m.ints[q - before.len()]],
                forall|q: int|
                    before.len() <= q < keys@.len() && !null_at(m, q - before.len()) ==> (
                    #[trigger] keys@[q]) == mapping@[m.ints[q - before.len()]],
            decreases old_keys@.len() - k,
        {
            let key: i128 = old_keys[k];
            let ghost here = keys@;
            assert(key == m.ints[k as int]);
            // A null slot may hold any key.
            if 0 <= key && key < mapping.len() as i128 {
                assert(mapping@[key as int] <= max);
                keys.push(mapping[key as usize] as i128);
            } else {
                keys.push(0);
            }
            proof {
                assert forall|q: int|
                    before.len() <= q < keys@.len() && !null_at(m, q - before.len()) implies (
                #[trigger] keys@[q]) < out.len() && out[keys@[q] as int] == rows(
                    m.children[0],
                )[m.ints[q - before.len()]] by {
                    if q < here.len() {
                        assert(keys@[q] == here[q]);
                    } else {
                        assert(!null_at(m, k as int));
                        assert(0 <= m.ints[k as int] < m.children[0].len);
                    }
                }
                assert forall|q: int|
                    before.len() <= q < keys@.len() && !null_at(m, q - before.len()) implies (
                #[trigger] keys@[q]) == mapping@[m.ints[q - before.len()]] by {
                    if q < here.len() {
                        assert(keys@[q] == here[q]);
                    } else {
                        assert(!null_at(m, k as int));
                        assert(0 <= m.ints[k as int] < m.children[0].len);
                    }
                }
            }
            k += 1;
        }
        proof {
            let more = keys@.subrange(before.len() as int, keys@.len() as int);
            assert(key_ints(keys@) =~= key_ints(before) + key_ints(more));
            lemma_dictionary_rows(m);
            assert(rows(m) =~= dictionary_rows(validity(m), key_ints(more), out)) by {
                assert forall|q: int| 0 <= q < m.len implies #[trigger] rows(m)[q]
                    == dictionary_rows(validity(m), key_ints(more), out)[q] by {
                    lemma_null_at(m, q);
                    assert(more[q] == keys@[before.len() + q]);
                    assert(rows(m)[q] == dictionary_rows(
                        validity(m),
                        m.ints,
                        rows(m.children[0]),
                    )[q]);
                }
            }
            lemma_dictionary_rows_add(
                joined_validity(front),
                key_ints(before),
                validity(m),
                key_ints(more),
                out,
            );
            let next = ms.take(i + 1);
            assert forall|q: int|
                0 <= q < keys@.len() && joined_validity(next)[q] implies #[trigger] keys@[q]
                < out.len() by {
                if q < before.len() {
                    assert(keys@[q] == before[q]);
                } else {
                    lemma_null_at(m, q - before.len());
                }
            }
            assert forall|q: int| 0 <= q < keys@.len() implies 0 <= #[trigger] keys@[q] <= max by {
                if q < before.len() {
                    assert(keys@[q] == before[q]);
                }
            }
            let all = key_ints(keys@);
            assert forall|p: int, q: int|
                0 <= p < i + 1 && 0 <= q < ms[p].len && !null_at(ms[p], q) implies all[total(
                ms.take(p),
            ) + q] == merged.key_mappings@[if shared {
                0
            } else {
                p
            }]@[#[trigger] ms[p].ints[q]] by {
                if p < i {
                    lemma_take_step(ms, p);
                    lemma_total_prefix(front, p + 1);
                    assert(front.take(p + 1) =~= ms.take(p + 1));
                    assert(total(ms.take(p)) + q < before.len());
                    assert(key_ints(before)[total(ms.take(p)) + q] == all[total(ms.take(p)) + q]);
                } else {
                    assert(all[before.len() + q] == keys@[before.len() + q]);
                }
            }
        }
        i += 1;
    }
    assert(ms.take(i as int) =~= ms);
    keys
}

/// Keys as mathematical integers.
pub open spec fn key_ints(keys: Seq<i128>) -> Seq<int> {
    Seq::new(keys.len(), |i: int| keys[i] as int)
}

/// A dictionary array makes no new nulls if its values do not.
proof fn lemma_dictionary_nulls(ms: Seq<ArrayModel>, m: ArrayModel)
    requires
        all_valid(ms),
        one_type(ms),
        ms.len() > 0,
        ms[0].data_type.shape is Dictionary,
        concatenates(ms, m),
        no_new_nulls(child_models(ms, 0), m.children[0]),
    ensures
        no_new_nulls(ms, m),
{
    if holds_null(m) {
        assert(valid(ms[0]));
        if m.nulls is Some {
            lemma_joined_nulls(ms);
            let i = choose|i: int| 0 <= i < ms.len() && (#[trigger] ms[i]).nulls is Some;
            assert(ms[i].data_type == ms[0].data_type);
            assert(holds_null(ms[i]));
        } else {
            let vs = child_models(ms, 0);
            let i = choose|i: int| 0 <= i < vs.len() && holds_null(#[trigger] vs[i]);
            assert(ms[i].data_type == ms[0].data_type);
            assert(valid(ms[i]));
            assert(holds_null(ms[i].children[0]));
            assert(holds_null(ms[i]));
        }
    }
}

/// The dictionary arrays with their values replaced by merged ones.
fn rebuild(
    arrays: &[AnyArray],
    merged: &MergedDictionaries,
    shared: bool,
    kind: Primitive,
    len: usize,
) -> (r: AnyArray)
    requires
        joinable(models(arrays@)),
        len == total(models(arrays@)),
        contents(arrays@[0]).data_type.shape is Dictionary,
        contents(arrays@[0]).data_type.fields[0].data_type.shape == Shape::Primitive(kind),
        contents(merged.values).data_type == contents(arrays@[0]).data_type.fields[1].data_type,
        merged.covers(models(arrays@), integer_max(kind), shared),
        no_new_nulls(child_models(models(arrays@), 0), contents(merged.values)),
    ensures
        concatenates(models(arrays@), contents(r)),
        contents(r).children[0] == contents(merged.values),
        no_new_nulls(models(arrays@), contents(r)),
        merged.leads(models(arrays@), arrays@.len() as int, contents(r).ints, shared),
{
    let ghost ms = models(arrays@);
    proof {
        assert(ms[0] == contents(arrays@[0]));
        assert(valid(ms[0]));
        lemma_joined_len(ms);
    }
    let keys = recompute_keys(arrays, merged, shared, kind, len);
    let nulls = concat_nulls(arrays, len);
    let ghost key_seq = keys@;
    let ghost bits = full_bits(nulls, keys@.len());
    assert(bits == joined_validity(ms));
    let array = match kind {
        Primitive::Int8 => signed_dictionary(kind, keys, nulls, &merged.values),
        Primitive::Int16 => signed_dictionary(kind, keys, nulls, &merged.values),
        Primitive::Int32 => signed_dictionary(kind, keys, nulls, &merged.values),
        Primitive::Int64 => signed_dictionary(kind, keys, nulls, &merged.values),
        _ => unsigned_dictionary(kind, keys, nulls, &merged.values),
    };
    proof {
        let m = contents(array);
        let t = ms[0].data_type;
        assert(is_dictionary(
            m,
            kind,
            key_seq,
            contents(merged.values),
            option_bits(nulls),
        ));
        assert(m.data_type == t);
        lemma_dictionary_rows(m);
        assert(m.ints =~= key_ints(key_seq));
        lemma_validity(m, joined_validity(ms));
        assert(m.children[0] == contents(merged.values));
        lemma_dictionary_nulls(ms, m);
    }
    array
}

/// The numbers from `base` on, `len` of them.
fn numbers_from(base: usize, len: usize) -> (r: Vec<usize>)
    requires
        base + len <= usize::MAX,
    ensures
        r@.len() == len,
        forall|k: int| 0 <= k < len ==> #[trigger] r@[k] == base + k,
{
    let mut out: Vec<usize> = Vec::with_capacity(len);
    let mut k: usize = 0;
    while k < len
        invariant
            0 <= k <= len,
            base + len <= usize::MAX,
            out@.len() == k,
            forall|q: int| 0 <= q < k ==> #[trigger] out@[q] == base + q,
        decreases len - k,
    {
        out.push(base + k);
        k += 1;
    }
    out
}

/// The values of dictionary arrays, one array after the other, with none merged.
fn stack_dictionary_values(
    arrays: &[AnyArray],
    values: &[AnyArray],
    stacked: AnyArray,
    kind: Primitive,
) -> (r: MergedDictionaries)
    requires
        dictionaries(arrays@, values@, kind),
        total(models(values@)) <= integer_max(kind),
        total(models(values@)) <= usize::MAX,
        concatenates(models(values@), contents(stacked)),
    ensures
        r.covers(models(arrays@), integer_max(kind), false),
        contents(r.values) == contents(stacked),
        forall|p: int, k: int|
            0 <= p < values@.len() && 0 <= k < contents(values@[p]).len
                ==> #[trigger] r.key_mappings@[p]@[k] == total(models(values@).take(p)) + k,
{
    let ghost ms = models(arrays@);
    let ghost vs = models(values@);
    let ghost max = integer_max(kind);
    let ghost out = rows(contents(stacked));
    proof {
        lemma_dictionaries(arrays@, values@, kind);
        assert(vs[0] == contents(values@[0]));
        lemma_joined_len(vs);
    }
    let mut key_mappings: Vec<Vec<usize>> = Vec::with_capacity(arrays.len());
    let mut base: usize = 0;
    let mut i: usize = 0;
    assert(vs.take(0) =~= Seq::empty());
    while i < values.len()
        invariant
            0 <= i <= values@.len(),
            ms == models(arrays@),
            vs == models(values@),
            max == integer_max(kind),
            dictionaries(arrays@, values@, kind),
            out == joined(vs),
            out.len() == total(vs),
            total(vs) <= max,
            total(vs) <= usize::MAX,
            base == total(vs.take(i as int)),
            key_mappings@.len() == i,
            forall|p: int| 0 <= p < i ==> mapped(ms[p], #[trigger] key_mappings@[p]@, out),
            forall|p: int, k: int|
                0 <= p < i && 0 <= k < key_mappings@[p]@.len()
                    ==> #[trigger] key_mappings@[p]@[k] <= max,
            forall|p: int, k: int|
                0 <= p < i && 0 <= k < vs[p].len ==> #[trigger] key_mappings@[p]@[k] == total(
                    vs.take(p),
                ) + k,
        decreases values@.len() - i,
    {
        let len: usize = values[i].len();
        let ghost m = ms[i as int];
        proof {
            lemma_dictionaries(arrays@, values@, kind);
            assert(m == contents(arrays@[i as int]));
            assert(vs[i as int] == contents(values@[i as int]));
            lemma_take_step(vs, i as int);
            lemma_total_prefix(vs, i + 1);
        }
        let mapping = numbers_from(base, len);
        proof {
            assert forall|q: int| 0 <= q < m.len && !null_at(m, q) implies {
                &&& mapping@[#[trigger] m.ints[q]] < out.len()
                &&& out[mapping@[m.ints[q]] as int] == rows(m.children[0])[m.ints[q]]
            } by {
                lemma_joined_at(vs, i as int, m.ints[q]);
                assert(mapping@[m.ints[q]] == base + m.ints[q]);
            }
            assert(mapped(m, mapping@, out));
        }
        let ghost mappings = key_mappings@;
        key_mappings.push(mapping);
        proof {
            assert forall|p: int| 0 <= p < i + 1 implies mapped(
                ms[p],
                #[trigger] key_mappings@[p]@,
                out,
            ) by {
                if p < i {
                    assert(key_mappings@[p] == mappings[p]);
                }
            }
            assert forall|p: int, k: int|
                0 <= p < i + 1 && 0 <= k < key_mappings@[p]@.len() implies (
            #[trigger] key_mappings@[p]@[k]) <= max by {
                if p < i {
                    assert(key_mappings@[p] == mappings[p]);
                    assert(mappings[p]@[k] <= max);
                } else {
                    assert(mapping@[k] == base + k);
                }
            }
            assert forall|p: int, k: int| 0 <= p < i + 1 && 0 <= k < vs[p].len implies (
            #[trigger] key_mappings@[p]@[k]) == total(vs.take(p)) + k by {
                if p < i {
                    assert(key_mappings@[p] == mappings[p]);
                    assert(mappings[p]@[k] == total(vs.take(p)) + k);
                } else {
                    assert(mapping@[k] == base + k);
                }
            }
        }
        base += len;
        i += 1;
    }
    proof {
        lemma_dictionaries(arrays@, values@, kind);
    }
    MergedDictionaries { key_mappings, values: stacked }
}

/// The numbers from zero on, as far as keys go, and zeros behind them.
fn identity_mapping(len: usize, max: i128) -> (r: Vec<usize>)
    requires
        0 < max,
    ensures
        r@.len() == len,
        forall|k: int|
            0 <= k < len ==> #[trigger] r@[k] == (if k <= max {
                k
            } else {
                0
            }),
{
    let mut out: Vec<usize> = Vec::with_capacity(len);
    let mut k: usize = 0;
    while k < len
        invariant
            0 <= k <= len,
            out@.len() == k,
            forall|q: int|
                0 <= q < k ==> #[trigger] out@[q] == (if q <= max {
                    q
                } else {
                    0
                }),
        decreases len - k,
    {
        if k as i128 <= max {
            out.push(k);
        } else {
            out.push(0);
        }
        k += 1;
    }
    out
}

/// The values of dictionary arrays whose values are alike.
fn share_dictionary_values(arrays: &[AnyArray], values: &[AnyArray], kind: Primitive) -> (r:
    MergedDictionaries)
    requires
        dictionaries(arrays@, values@, kind),
        forall|i: int|
            0 <= i < values@.len() ==> alike(contents(#[trigger] values@[i]), contents(values@[0])),
    ensures
        r.covers(models(arrays@), integer_max(kind), true),
        contents(r.values) == contents(values@[0]),
        forall|k: int|
            0 <= k < contents(values@[0]).len && k <= integer_max(kind)
                ==> #[trigger] r.key_mappings@[0]@[k] == k,
{
    let ghost ms = models(arrays@);
    let ghost v = contents(values@[0]);
    proof {
        lemma_dictionaries(arrays@, values@, kind);
        assert(models(values@)[0] == v);
        assert(contents(values@[0]) == contents(arrays@[0]).children[0]);
    }
    let len: usize = values[0].len();
    let mapping = identity_mapping(len, max_of(kind));
    let first = values[0].share();
    let mut key_mappings: Vec<Vec<usize>> = Vec::with_capacity(1);
    key_mappings.push(mapping);
    let merged = MergedDictionaries { key_mappings, values: first };
    proof {
        let out = rows(contents(merged.values));
        assert(merged.key_mappings@[0] == mapping);
        assert forall|i: int| 0 <= i < ms.len() implies mapped(
            #[trigger] ms[i],
            merged.key_mappings@[0]@,
            out,
        ) by {
            let m = ms[i];
            assert(m == contents(arrays@[i]));
            assert(contents(values@[i]) == m.children[0]);
            assert(rows(m.children[0]) == rows(v));
            assert(rows(m.children[0]).len() == m.children[0].len);
            assert(rows(v).len() == v.len);
            assert forall|q: int| 0 <= q < m.len && !null_at(m, q) implies {
                &&& mapping@[#[trigger] m.ints[q]] < out.len()
                &&& out[mapping@[m.ints[q]] as int] == rows(m.children[0])[m.ints[q]]
            } by {
                assert(m.ints[q] <= integer_max(kind));
                assert(mapping@[m.ints[q]] == m.ints[q]);
            }
        }
    }
    merged
}

/// Whether these are what a test told of each array and the first: that of the first itself needs none.
pub open spec fn told<F: Fn(&AnyArray, &AnyArray) -> bool>(
    test: F,
    values: Seq<AnyArray>,
    flags: Seq<bool>,
) -> bool {
    &&& flags.len() == values.len()
    &&& flags[0]
    &&& forall|i: int|
        1 <= i < flags.len() ==> call_ensures(test, (&values[i], &values[0]), #[trigger] flags[i])
}

/// What a test tells of each array and the first.
fn sharing<F: Fn(&AnyArray, &AnyArray) -> bool>(values: &[AnyArray], test: F) -> (r: Vec<bool>)
    requires
        values@.len() > 0,
        forall|a: &AnyArray, b: &AnyArray| call_requires(test, (a, b)),
        forall|a: &AnyArray, b: &AnyArray|
            call_ensures(test, (a, b), true) ==> alike(contents(*a), contents(*b)),
    ensures
        told(test, values@, r@),
        forall|i: int|
            0 <= i < r@.len() && #[trigger] r@[i] ==> alike(
                contents(values@[i]),
                contents(values@[0]),
            ),
{
    let mut out: Vec<bool> = Vec::with_capacity(values.len());
    out.push(true);
    let mut i: usize = 1;
    while i < values.len()
        invariant
            1 <= i <= values@.len(),
            out@.len() == i,
            out@[0],
            forall|a: &AnyArray, b: &AnyArray| call_requires(test, (a, b)),
            forall|k: int|
                1 <= k < i ==> call_ensures(test, (&values@[k], &values@[0]), #[trigger] out@[k]),
        decreases values@.len() - i,
    {
        out.push(test(&values[i], &values[0]));
        i += 1;
    }
    out
}

/// Whether all of these hold.
fn all_hold(flags: &Vec<bool>) -> (r: bool)
    ensures
        r == forall|i: int| 0 <= i < flags@.len() ==> #[trigger] flags@[i],
{
    let mut i: usize = 0;
    while i < flags.len()
        invariant
            0 <= i <= flags@.len(),
            forall|k: int| 0 <= k < i ==> #[trigger] flags@[k],
        decreases flags@.len() - i,
    {
        if !flags[i] {
            return false;
        }
        i += 1;
    }
    true
}

/// Whether the keys of dictionary arrays may not suffice for their values.
pub open spec fn keys_may_fail(t: TypeModel, ms: Seq<ArrayModel>) -> bool {
    &&& total(child_models(ms, 0)) > index_max(t)
    &&& mergeable(t.fields[1].data_type) ==> crowded(ms, index_max(t))
}

/// Whether the values of dictionary arrays may not go into one array.
pub open spec fn values_may_fail(t: TypeModel, ms: Seq<ArrayModel>) -> bool {
    !copyable(t.fields[1].data_type, child_models(ms, 0)) && !fits(
        t.fields[1].data_type,
        child_models(ms, 0),
    )
}

/// Whether values of dictionaries are merged: if there are several dictionaries whose values can be
/// compared, and they have more values than keys can number, or than the arrays have slots.
pub fn should_merge_dictionary_values(
    shared: bool,
    shape: Shape,
    values: Option<usize>,
    max: i128,
    len: usize,
) -> (r: bool)
    ensures
        r == (!shared && (shape is Bytes || shape is Primitive) && (values matches Some(n) ==> n
            > max || n >= len)),
{
    if shared {
        return false;
    }
    let comparable: bool = match shape {
        Shape::Bytes { .. } => true,
        Shape::Primitive(_) => true,
        _ => false,
    };
    comparable && match values {
        Some(n) => n as i128 > max || n >= len,
        None => true,
    }
}

/// Whether the values of dictionary arrays are to be merged if they are not shared: if they can be
/// compared, and are more than keys can number, or at least as many as the arrays have slots.
pub open spec fn wants_merge(t: TypeModel, ms: Seq<ArrayModel>) -> bool {
    &&& mergeable(t.fields[1].data_type)
    &&& total(child_models(ms, 0)) > index_max(t) || total(child_models(ms, 0)) >= total(ms)
}

/// Whether a dictionary array has every value that the arrays refer to once, and no other, in the order in
/// which the arrays and their dictionaries have them.
pub open spec fn merged_values(ms: Seq<ArrayModel>, out: ArrayModel) -> bool {
    let values = rows(out.children[0]);
    &&& values.no_duplicates()
    &&& values == held_with(Seq::empty(), referred_values(ms))
    &&& forall|e: int| 0 <= e < values.len() ==> refers(ms, #[trigger] values[e])
    &&& values.len() <= total(child_models(ms, 0))
}

/// What becomes of the values of dictionary arrays, `shared` or not: shared values are kept, others are
/// merged, or put one array after the other.
pub open spec fn known_values(ms: Seq<ArrayModel>, out: ArrayModel, shared: bool) -> bool {
    if shared {
        kept(ms, out)
    } else if wants_merge(ms[0].data_type, ms) {
        merged_values(ms, out)
    } else {
        behind(ms, out)
    }
}

/// What becomes of the values of dictionary arrays: they can be shared only if they are alike.
pub open spec fn dictionary_values(ms: Seq<ArrayModel>, out: ArrayModel) -> bool {
    known_values(ms, out, true) || known_values(ms, out, false)
}

/// Whether an error is one that dictionary arrays may give whose values are not shared.
pub open spec fn dictionary_error(ms: Seq<ArrayModel>, error: ConcatError) -> bool {
    let t = ms[0].data_type;
    ||| error is DictionaryKeyOverflow && keys_may_fail(t, ms)
    ||| error is DictionaryValueOverflow && values_may_fail(t, ms)
    ||| {
        &&& !copyable(t.fields[1].data_type, child_models(ms, 0))
        &&& explained(t.fields[1].data_type, child_models(ms, 0), error)
    }
}

/// What concatenating dictionary arrays gives whose values are `shared` or not.
pub open spec fn known_outcome(
    ms: Seq<ArrayModel>,
    result: Result<AnyArray, ConcatError>,
    shared: bool,
) -> bool {
    match result {
        Ok(out) => {
            &&& concatenates(ms, contents(out))
            &&& known_values(ms, contents(out), shared)
            &&& no_new_nulls(ms, contents(out))
            &&& !shared && !mergeable(ms[0].data_type.fields[1].data_type) ==> total(
                child_models(ms, 0),
            ) <= index_max(ms[0].data_type)
        },
        Err(error) => !shared && dictionary_error(ms, error),
    }
}

/// Whether all of these hold.
pub open spec fn all_true(flags: Seq<bool>) -> bool {
    forall|i: int| 0 <= i < flags.len() ==> #[trigger] flags[i]
}

/// Whether the test of whether two arrays have the very same buffers may tell this of them.
pub open(crate) spec fn may_tell(a: AnyArray, b: AnyArray, same: bool) -> bool {
    call_ensures(AnyArray::ptr_eq, (&a, &b), same)
}

/// Whether these are arrays of the values of dictionaries, and what the test of whether they have the
/// very same buffers told of each of them and the first.
pub open(crate) spec fn sharing_told(
    ms: Seq<ArrayModel>,
    values: Seq<AnyArray>,
    flags: Seq<bool>,
) -> bool {
    &&& models(values) == child_models(ms, 0)
    &&& flags.len() == values.len()
    &&& flags[0]
    &&& forall|i: int|
        1 <= i < flags.len() ==> may_tell(values[i], values[0], #[trigger] flags[i])
}

/// What concatenating dictionary arrays gives: values that are told to be shared are kept.
pub open(crate) spec fn told_outcome(
    ms: Seq<ArrayModel>,
    result: Result<AnyArray, ConcatError>,
) -> bool {
    exists|values: Seq<AnyArray>, flags: Seq<bool>| #[trigger]
        sharing_told(ms, values, flags) && known_outcome(ms, result, all_true(flags))
}

/// Concatenates dictionary arrays. Their values are shared, merged, or put one after the other.
///
/// Whether they are shared depends on where their buffers lie; [`concat_known_dictionaries`] does the
/// rest.
pub(crate) fn concat_dictionaries(arrays: &[AnyArray], data_type: &DataType) -> (r: Result<
    AnyArray,
    ConcatError,
>)
    requires
        joinable(models(arrays@)),
        arrays@.len() >= 2,
        type_model(*data_type) == contents(arrays@[0]).data_type,
        contents(arrays@[0]).data_type.shape is Dictionary,
    ensures
        known_outcome(models(arrays@), r, true) && all_alike(child_models(models(arrays@), 0))
            || known_outcome(models(arrays@), r, false),
        told_outcome(models(arrays@), r),
    decreases contents(arrays@[0]).data_type, 1int,
{
    let ghost ms = models(arrays@);
    proof {
        assert(ms[0] == contents(arrays@[0]));
        assert forall|i: int| 0 <= i < arrays@.len() implies 0 < contents(
            #[trigger] arrays@[i],
        ).children.len() && contents(arrays@[i]).data_type.shape !is Runs by {
            assert(valid(ms[i]));
            assert(ms[i].data_type == ms[0].data_type);
        }
    }
    let values = children(arrays, 0);
    assert(models(values@).len() == ms.len());
    let flags = sharing(values.as_slice(), AnyArray::ptr_eq);
    let shared: bool = all_hold(&flags);
    proof {
        if shared {
            assert forall|i: int| 0 <= i < values@.len() implies alike(
                #[trigger] models(values@)[i],
                models(values@)[0],
            ) by {
                assert(flags@[i]);
                assert(alike(contents(values@[i]), contents(values@[0])));
            }
            assert(all_alike(child_models(ms, 0)));
        }
    }
    proof {
        assert(sharing_told(ms, values@, flags@));
        assert(shared == all_true(flags@));
    }
    concat_known_dictionaries(arrays, data_type, shared)
}

/// Where dictionaries have no values, no slot has a key.
proof fn lemma_no_keys(ms: Seq<ArrayModel>, out: ArrayModel, kept: bool)
    requires
        all_valid(ms),
        one_type(ms),
        ms.len() > 0,
        ms[0].data_type.shape is Dictionary,
        forall|i: int| 0 <= i < ms.len() ==> (#[trigger] child_models(ms, 0)[i]).len == 0,
    ensures
        keys_follow(ms, out, kept),
{
    assert forall|p: int, q: int|
        0 <= p < ms.len() && 0 <= q < ms[p].len && !null_at(ms[p], q) implies out.ints[total(
        ms.take(p),
    ) + q] == #[trigger] ms[p].ints[q] + if kept {
        0
    } else {
        total(child_models(ms, 0).take(p)) as int
    } by {
        assert(valid(ms[p]));
        assert(ms[p].data_type == ms[0].data_type);
        assert(child_models(ms, 0)[p].len == 0);
        assert(0 <= ms[p].ints[q] < ms[p].children[0].len);
        assert(false);
    }
}

/// Whether alike arrays, two or more, have no more slots together than the first has: they have none.
proof fn lemma_alike_empty(vs: Seq<ArrayModel>)
    requires
        vs.len() >= 2,
        all_valid(vs),
        all_alike(vs),
        total(vs) == vs[0].len,
    ensures
        forall|i: int| 0 <= i < vs.len() ==> (#[trigger] vs[i]).len == 0,
        joined(vs) == rows(vs[0]),
        rows(vs[0]) == Seq::<Value>::empty(),
{
    assert forall|i: int| 0 <= i < vs.len() implies (#[trigger] vs[i]).len == vs[0].len by {
        assert(alike(vs[i], vs[0]));
        assert(rows(vs[i]).len() == vs[i].len);
        assert(rows(vs[0]).len() == vs[0].len);
    }
    let front = vs.drop_last();
    lemma_total_prefix(front, 1);
    assert(front.take(1) =~= seq![vs[0]]);
    assert(seq![vs[0]].drop_last() =~= Seq::empty());
    reveal_with_fuel(total, 2);
    assert(total(seq![vs[0]]) == vs[0].len);
    assert(vs[vs.len() - 1].len == 0);
    lemma_joined_len(vs);
    assert(rows(vs[0]) =~= Seq::empty());
    assert(joined(vs) =~= Seq::empty());
}

/// The keys that mappings of shared or stacked values make follow the keys of the arrays.
proof fn lemma_leads_follow(
    merged: MergedDictionaries,
    ms: Seq<ArrayModel>,
    out: ArrayModel,
    shared: bool,
)
    requires
        all_valid(ms),
        one_type(ms),
        ms.len() > 0,
        ms[0].data_type.shape is Dictionary,
        merged.leads(ms, ms.len() as int, out.ints, shared),
        shared ==> all_alike(child_models(ms, 0)) && forall|k: int|
            0 <= k < ms[0].children[0].len && k <= index_max(ms[0].data_type)
                ==> #[trigger] merged.key_mappings@[0]@[k] == k,
        !shared ==> forall|p: int, k: int|
            0 <= p < ms.len() && 0 <= k < child_models(ms, 0)[p].len
                ==> #[trigger] merged.key_mappings@[p]@[k] == total(child_models(ms, 0).take(p))
                + k,
    ensures
        keys_follow(ms, out, shared),
{
    let vs = child_models(ms, 0);
    assert forall|p: int, q: int|
        0 <= p < ms.len() && 0 <= q < ms[p].len && !null_at(ms[p], q) implies out.ints[total(
        ms.take(p),
    ) + q] == #[trigger] ms[p].ints[q] + if shared {
        0
    } else {
        total(vs.take(p)) as int
    } by {
        let m = ms[p];
        assert(valid(m));
        assert(m.data_type == ms[0].data_type);
        let k = m.ints[q];
        assert(0 <= k < m.children[0].len);
        assert(vs[p] == m.children[0]);
        if shared {
            assert(alike(vs[p], vs[0]));
            assert(rows(vs[p]).len() == vs[p].len);
            assert(rows(vs[0]).len() == vs[0].len);
            assert(merged.key_mappings@[0]@[k] == k);
        } else {
            assert(merged.key_mappings@[p]@[k] == total(vs.take(p)) + k);
        }
    }
}

/// Concatenates dictionary arrays whose values are known to be shared or not. Shared values are kept,
/// and never fail. Others are merged, or put one array after the other.
pub fn concat_known_dictionaries(arrays: &[AnyArray], data_type: &DataType, shared: bool) -> (r:
    Result<AnyArray, ConcatError>)
    requires
        joinable(models(arrays@)),
        arrays@.len() >= 2,
        type_model(*data_type) == contents(arrays@[0]).data_type,
        contents(arrays@[0]).data_type.shape is Dictionary,
        shared ==> all_alike(child_models(models(arrays@), 0)),
    ensures
        known_outcome(models(arrays@), r, shared),
    decreases contents(arrays@[0]).data_type, 0int,
{
    let ghost ms = models(arrays@);
    let ghost t = ms[0].data_type;
    let ghost vs = child_models(ms, 0);
    proof {
        assert(ms[0] == contents(arrays@[0]));
        assert(valid(ms[0]));
        assert forall|i: int| 0 <= i < arrays@.len() implies 0 < contents(
            #[trigger] arrays@[i],
        ).children.len() && contents(arrays@[i]).data_type.shape !is Runs by {
            assert(valid(ms[i]));
            assert(ms[i].data_type == ms[0].data_type);
        }
    }
    let output_len: usize = total_len(arrays);
    let kind = index_kind(data_type);
    let values = children(arrays, 0);
    proof {
        lemma_dictionaries(arrays@, values@, kind);
        assert(models(values@) == vs);
        assert(models(values@)[0] == contents(values@[0]));
    }
    let max: i128 = max_of(kind);
    let shape = shape_of(&values[0].data_type());
    let values_len: Option<usize> = checked_total(values.as_slice());
    if !should_merge_dictionary_values(shared, shape, values_len, max, output_len) {
        if can_be_copied(arrays) {
            let copy = concat_fallback(arrays, slots_hint(data_type, output_len));
            let held: usize = copy.child(0).len();
            let expected: Option<usize> = if shared {
                Some(values[0].len())
            } else {
                values_len
            };
            // Arrow tells for itself whether values are shared.
            if expected == Some(held) {
                proof {
                    let out = contents(copy);
                    lemma_joined_len(vs);
                    assert(rows(out.children[0]).len() == held);
                    assert(rows(vs[0]).len() == vs[0].len);
                    if shared != kept(ms, out) {
                        lemma_alike_empty(vs);
                        lemma_no_keys(ms, out, shared);
                    }
                }
                return Ok(copy);
            }
        }
        if shared {
            proof {
                assert forall|i: int| 0 <= i < values@.len() implies alike(
                    contents(#[trigger] values@[i]),
                    contents(values@[0]),
                ) by {
                    assert(alike(vs[i], vs[0]));
                    assert(vs[i] == contents(values@[i]));
                }
            }
            let merged = share_dictionary_values(arrays, values.as_slice(), kind);
            let array = rebuild(arrays, &merged, true, kind, output_len);
            proof {
                lemma_leads_follow(merged, ms, contents(array), true);
            }
            return Ok(array);
        }
        match values_len {
            Some(n) => {
                if n as i128 > max {
                    return Err(ConcatError::DictionaryKeyOverflow);
                }
            },
            None => {
                return Err(ConcatError::DictionaryValueOverflow);
            },
        }
        let stacked = if can_be_copied(values.as_slice()) {
            let slots: usize = total_len(values.as_slice());
            concat_fallback(values.as_slice(), slots_hint(&values[0].data_type(), slots))
        } else if can_concat(values.as_slice()) {
            match concat(values.as_slice()) {
                Ok(array) => array,
                Err(error) => {
                    return Err(error);
                },
            }
        } else {
            return Err(ConcatError::DictionaryValueOverflow);
        };
        let merged = stack_dictionary_values(arrays, values.as_slice(), stacked, kind);
        let array = rebuild(arrays, &merged, false, kind, output_len);
        proof {
            assert forall|p: int, k: int| 0 <= p < ms.len() && 0 <= k < vs[p].len implies (
            #[trigger] merged.key_mappings@[p]@[k]) == total(vs.take(p)) + k by {
                assert(vs[p] == contents(values@[p]));
            }
            lemma_leads_follow(merged, ms, contents(array), false);
        }
        return Ok(array);
    }
    let expected: usize = match values_len {
        Some(n) => n,
        None => output_len,
    };
    match merge_dictionary_values(arrays, values.as_slice(), kind, expected) {
        Ok(merged) => Ok(rebuild(arrays, &merged, false, kind, output_len)),
        Err(error) => Err(error),
    }
}

} // verus!

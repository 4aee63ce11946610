//! The words for arrays of different types.
use arrow_schema::DataType;
use vstd::prelude::*;

use crate::joins::lemma_take_step;
use crate::model::TypeModel;
use crate::outside::{same_type, type_model};

verus! {

/// How many types the message names at most.
pub const MAX_NAMED_TYPES: usize = 10;

/// The types that the values stand for.
pub open spec fn type_models(types: Seq<DataType>) -> Seq<TypeModel> {
    Seq::new(types.len(), |i: int| type_model(types[i]))
}

/// Where each type occurs for the first time.
pub open spec fn firsts(types: Seq<TypeModel>) -> Seq<int>
    decreases types.len(),
{
    if types.len() == 0 {
        seq![]
    } else if types.drop_last().contains(types.last()) {
        firsts(types.drop_last())
    } else {
        firsts(types.drop_last()).push(types.len() - 1)
    }
}

/// The texts at these places, set off by commas: all of the first ten, then three dots for more.
pub open spec fn listing(places: Seq<int>, texts: Seq<Seq<char>>) -> Seq<char>
    decreases places.len(),
{
    if places.len() == 0 {
        seq![]
    } else {
        let before = listing(places.drop_last(), texts);
        if places.len() == 1 {
            before + texts[places.last()]
        } else if places.len() <= MAX_NAMED_TYPES {
            before + ", "@ + texts[places.last()]
        } else if places.len() == MAX_NAMED_TYPES + 1 {
            before + ", ..."@
        } else {
            before
        }
    }
}

/// What is said of arrays of these types, whose texts are given.
pub open spec fn mismatch_text(types: Seq<TypeModel>, texts: Seq<Seq<char>>) -> Seq<char> {
    "It is not possible to concatenate arrays of different data types ("@ + listing(
        firsts(types),
        texts,
    ) + ")."@
}

/// The views of strings.
pub open spec fn views(texts: Seq<String>) -> Seq<Seq<char>> {
    Seq::new(texts.len(), |i: int| texts[i]@)
}

/// Whether one of the first places has this type.
pub open spec fn named(types: Seq<TypeModel>, data_type: TypeModel) -> bool {
    exists|k: int|
        0 <= k < firsts(types).len() && types[#[trigger] firsts(types)[k]] == data_type
}

/// First places are places, and the type of every place has a first one.
pub proof fn lemma_firsts(types: Seq<TypeModel>)
    ensures
        forall|k: int|
            0 <= k < firsts(types).len() ==> 0 <= #[trigger] firsts(types)[k] < types.len(),
        forall|i: int| 0 <= i < types.len() ==> named(types, #[trigger] types[i]),
    decreases types.len(),
{
    if types.len() > 0 {
        let front = types.drop_last();
        lemma_firsts(front);
        assert forall|i: int| 0 <= i < types.len() implies named(types, #[trigger] types[i]) by {
            if i < front.len() {
                assert(named(front, front[i]));
                let k = choose|k: int|
                    0 <= k < firsts(front).len() && front[#[trigger] firsts(front)[k]] == front[i];
                assert(firsts(types)[k] == firsts(front)[k]);
            } else if front.contains(types.last()) {
                let p = choose|p: int| 0 <= p < front.len() && front[p] == types.last();
                assert(front[p] == types[i]);
                assert(named(front, front[p]));
                let k = choose|k: int|
                    0 <= k < firsts(front).len() && front[#[trigger] firsts(front)[k]] == front[p];
                assert(firsts(types)[k] == firsts(front)[k]);
            } else {
                assert(firsts(types)[firsts(types).len() - 1] == i);
            }
        }
    }
}

/// More types leave the first places as they are, and from the eleventh on the text too.
proof fn lemma_listing_stops(types: Seq<TypeModel>, i: int, texts: Seq<Seq<char>>)
    requires
        0 <= i <= types.len(),
        firsts(types.take(i)).len() > MAX_NAMED_TYPES,
    ensures
        listing(firsts(types), texts) == listing(firsts(types.take(i)), texts),
    decreases types.len() - i,
{
    if i < types.len() {
        lemma_take_step(types, i);
        let here = firsts(types.take(i));
        let next = firsts(types.take(i + 1));
        assert(next == here || next == here.push(i));
        if next == here.push(i) {
            assert(next.drop_last() =~= here);
        }
        lemma_listing_stops(types, i + 1, texts);
    } else {
        assert(types.take(i) =~= types);
    }
}

/// Whether the type at place `i` is that of an earlier place, of which `unique` holds the first ones.
fn occurs(types: &Vec<DataType>, unique: &Vec<usize>, i: usize) -> (r: bool)
    requires
        i < types@.len(),
        unique@.len() == firsts(type_models(types@).take(i as int)).len(),
        forall|q: int|
            0 <= q < unique@.len() ==> #[trigger] unique@[q] == firsts(
                type_models(types@).take(i as int),
            )[q],
    ensures
        r == type_models(types@).take(i as int).contains(type_models(types@)[i as int]),
{
    let ghost all = type_models(types@);
    let ghost seen = all.take(i as int);
    let mut k: usize = 0;
    while k < unique.len()
        invariant
            0 <= k <= unique@.len(),
            i < types@.len(),
            all == type_models(types@),
            seen == all.take(i as int),
            unique@.len() == firsts(seen).len(),
            forall|q: int| 0 <= q < unique@.len() ==> #[trigger] unique@[q] == firsts(seen)[q],
            forall|q: int| 0 <= q < k ==> all[#[trigger] unique@[q] as int] != all[i as int],
        decreases unique@.len() - k,
    {
        proof {
            lemma_firsts(seen);
            assert(unique@[k as int] == firsts(seen)[k as int]);
        }
        let place: usize = unique[k];
        if same_type(&types[place], &types[i]) {
            assert(seen[place as int] == all[i as int]);
            return true;
        }
        k += 1;
    }
    proof {
        if seen.contains(all[i as int]) {
            let p = choose|p: int| 0 <= p < seen.len() && seen[p] == all[i as int];
            lemma_firsts(seen);
            assert(named(seen, seen[p]));
            let q = choose|q: int|
                0 <= q < firsts(seen).len() && seen[#[trigger] firsts(seen)[q]] == seen[p];
            assert(unique@[q] == firsts(seen)[q]);
        }
    }
    false
}

/// The words for arrays of different types: each type is named once, in the order of the arrays,
/// and at most ten are.
pub fn mismatch_message(types: &Vec<DataType>, texts: &Vec<String>) -> (r: String)
    requires
        types@.len() > 0,
        texts@.len() == types@.len(),
    ensures
        r@ == mismatch_text(type_models(types@), views(texts@)),
{
    let ghost all = type_models(types@);
    let ghost words = views(texts@);
    let mut message: String =
        "It is not possible to concatenate arrays of different data types (".to_owned();
    let ghost start = message@;
    let mut unique: Vec<usize> = Vec::new();
    let mut i: usize = 0;
    let mut more: bool = true;
    while more && i < types.len()
        invariant
            0 <= i <= types@.len(),
            texts@.len() == types@.len(),
            all == type_models(types@),
            words == views(texts@),
            more ==> unique@.len() <= MAX_NAMED_TYPES,
            more ==> unique@.len() == firsts(all.take(i as int)).len(),
            more ==> forall|k: int|
                0 <= k < unique@.len() ==> #[trigger] unique@[k] == firsts(all.take(i as int))[k],
            more ==> message@ == start + listing(firsts(all.take(i as int)), words),
            !more ==> message@ == start + listing(firsts(all), words),
        decreases types@.len() - i,
    {
        let ghost seen = all.take(i as int);
        let known: bool = occurs(types, &unique, i);
        proof {
            lemma_take_step(all, i as int);
        }
        if !known {
            let ghost next = firsts(all.take(i + 1));
            proof {
                assert(next == firsts(seen).push(i as int));
                assert(next.drop_last() =~= firsts(seen));
                assert(next.last() == i);
            }
            if unique.len() == MAX_NAMED_TYPES {
                message.append(", ...");
                more = false;
                proof {
                    lemma_listing_stops(all, i + 1, words);
                    assert(message@ =~= start + (listing(firsts(seen), words) + ", ..."@));
                }
            } else {
                if unique.len() > 0 {
                    message.append(", ");
                    message.append(texts[i].as_str());
                    assert(message@ =~= start + (listing(firsts(seen), words) + ", "@
                        + words[i as int]));
                } else {
                    message.append(texts[i].as_str());
                    assert(message@ =~= start + (listing(firsts(seen), words) + words[i as int]));
                }
                unique.push(i);
            }
        }
        i += 1;
    }
    proof {
        if more {
            assert(all.take(i as int) =~= all);
        }
    }
    message.append(").");
    message
}

} // verus!
